//! The generic tagged data tree that the engine renders from, together
//! with its mathematical model and the executable operations on it that
//! the rest of the engine relies on (deep equality).

use vstd::prelude::*;

verus! {

/// A generic data document: the closed sum of the shapes a structured
/// data source can take. `BadValue` is the sentinel for an absent value
/// (a failed lookup), mirroring the document model this engine consumes.
///
/// Mappings are kept as ordered key/value pairs so that iteration order
/// is the document's own insertion order; floating-point numbers are kept
/// as their source text (`Real`), so rendering them is exact.
#[derive(Debug, PartialEq)]
pub enum Value {
    Real(String),
    Integer(i64),
    Str(String),
    Boolean(bool),
    Array(Vec<Value>),
    Hash(Vec<(Value, Value)>),
    Null,
    BadValue,
}

/// The mathematical model of a `Value`: the same tree over `Seq`.
pub enum SpecValue {
    Real(Seq<char>),
    Integer(i64),
    Str(Seq<char>),
    Boolean(bool),
    Array(Seq<SpecValue>),
    Hash(Seq<(SpecValue, SpecValue)>),
    Null,
    BadValue,
}

/// The model of a single `Value`.
pub open spec fn view_value(v: Value) -> SpecValue
    decreases v,
{
    match v {
        Value::Real(s) => SpecValue::Real(s@),
        Value::Integer(n) => SpecValue::Integer(n),
        Value::Str(s) => SpecValue::Str(s@),
        Value::Boolean(b) => SpecValue::Boolean(b),
        Value::Array(items) => SpecValue::Array(view_values(items@)),
        Value::Hash(entries) => SpecValue::Hash(view_entries(entries@)),
        Value::Null => SpecValue::Null,
        Value::BadValue => SpecValue::BadValue,
    }
}

/// The models of a sequence of values, elementwise.
pub open spec fn view_values(s: Seq<Value>) -> Seq<SpecValue>
    decreases s,
{
    if s.len() == 0 {
        Seq::empty()
    } else {
        seq![view_value(s[0])] + view_values(s.skip(1))
    }
}

/// The models of a sequence of key/value pairs, elementwise.
pub open spec fn view_entries(s: Seq<(Value, Value)>) -> Seq<(SpecValue, SpecValue)>
    decreases s,
{
    if s.len() == 0 {
        Seq::empty()
    } else {
        seq![(view_value(s[0].0), view_value(s[0].1))] + view_entries(s.skip(1))
    }
}

/// `view_values` is an elementwise map: its length and members.
pub proof fn lemma_view_values(s: Seq<Value>)
    ensures
        view_values(s).len() == s.len(),
        forall|i: int| 0 <= i < s.len() ==> view_values(s)[i] == view_value(s[i]),
    decreases s,
{
    if s.len() > 0 {
        lemma_view_values(s.skip(1));
    }
}

/// `view_entries` is an elementwise map: its length and members.
pub proof fn lemma_view_entries(s: Seq<(Value, Value)>)
    ensures
        view_entries(s).len() == s.len(),
        forall|i: int| 0 <= i < s.len() ==> view_entries(s)[i] == (
            view_value(s[i].0),
            view_value(s[i].1),
        ),
    decreases s,
{
    if s.len() > 0 {
        lemma_view_entries(s.skip(1));
    }
}

/// Structural equality of two documents, decided against the model.
pub fn value_eq(a: &Value, b: &Value) -> (r: bool)
    ensures
        r == (view_value(*a) == view_value(*b)),
    decreases *a,
{
    match a {
        Value::Real(x) => match b {
            Value::Real(y) => x.eq(y),
            _ => false,
        },
        Value::Integer(x) => match b {
            Value::Integer(y) => *x == *y,
            _ => false,
        },
        Value::Str(x) => match b {
            Value::Str(y) => x.eq(y),
            _ => false,
        },
        Value::Boolean(x) => match b {
            Value::Boolean(y) => *x == *y,
            _ => false,
        },
        Value::Array(x) => match b {
            Value::Array(y) => values_eq(x, y),
            _ => false,
        },
        Value::Hash(x) => match b {
            Value::Hash(y) => entries_eq(x, y),
            _ => false,
        },
        Value::Null => match b {
            Value::Null => true,
            _ => false,
        },
        Value::BadValue => match b {
            Value::BadValue => true,
            _ => false,
        },
    }
}

/// Elementwise structural equality of two value sequences.
fn values_eq(x: &Vec<Value>, y: &Vec<Value>) -> (r: bool)
    ensures
        r == (view_values(x@) == view_values(y@)),
    decreases *x,
{
    proof {
        lemma_view_values(x@);
        lemma_view_values(y@);
    }
    if x.len() != y.len() {
        return false;
    }
    let n: usize = x.len();
    let mut i: usize = 0;
    while i < n
        invariant
            n == x@.len() == y@.len(),
            i <= n,
            forall|j: int| 0 <= j < i ==> view_value(x@[j]) == view_value(y@[j]),
            view_values(x@).len() == x@.len(),
            view_values(y@).len() == y@.len(),
            forall|j: int| 0 <= j < n ==> view_values(x@)[j] == view_value(x@[j]),
            forall|j: int| 0 <= j < n ==> view_values(y@)[j] == view_value(y@[j]),
        decreases n - i,
    {
        if !value_eq(&x[i], &y[i]) {
            proof {
                assert(view_values(x@)[i as int] != view_values(y@)[i as int]);
            }
            return false;
        }
        i += 1;
    }
    proof {
        assert(view_values(x@) =~= view_values(y@));
    }
    true
}

/// Pairwise structural equality of two entry sequences.
fn entries_eq(x: &Vec<(Value, Value)>, y: &Vec<(Value, Value)>) -> (r: bool)
    ensures
        r == (view_entries(x@) == view_entries(y@)),
    decreases *x,
{
    proof {
        lemma_view_entries(x@);
        lemma_view_entries(y@);
    }
    if x.len() != y.len() {
        return false;
    }
    let n: usize = x.len();
    let mut i: usize = 0;
    while i < n
        invariant
            n == x@.len() == y@.len(),
            i <= n,
            forall|j: int| 0 <= j < i ==> view_value(x@[j].0) == view_value(y@[j].0)
                && view_value(x@[j].1) == view_value(y@[j].1),
            view_entries(x@).len() == x@.len(),
            view_entries(y@).len() == y@.len(),
            forall|j: int| 0 <= j < n ==> view_entries(x@)[j] == (
                view_value(x@[j].0),
                view_value(x@[j].1),
            ),
            forall|j: int| 0 <= j < n ==> view_entries(y@)[j] == (
                view_value(y@[j].0),
                view_value(y@[j].1),
            ),
        decreases n - i,
    {
        if !value_eq(&x[i].0, &y[i].0) {
            proof {
                assert(view_entries(x@)[i as int] != view_entries(y@)[i as int]);
            }
            return false;
        }
        if !value_eq(&x[i].1, &y[i].1) {
            proof {
                assert(view_entries(x@)[i as int] != view_entries(y@)[i as int]);
            }
            return false;
        }
        i += 1;
    }
    proof {
        assert(view_entries(x@) =~= view_entries(y@));
    }
    true
}

/// Whether some entry of `s` has the key `k`.
pub open spec fn has_key(s: Seq<(SpecValue, SpecValue)>, k: SpecValue) -> bool {
    exists|i: int| 0 <= i < s.len() && s[i].0 == k
}

/// No two entries share a key.
pub open spec fn unique_keys(s: Seq<(SpecValue, SpecValue)>) -> bool {
    forall|i: int, j: int| 0 <= i < j < s.len() ==> s[i].0 != s[j].0
}

/// The top level of `v`, if it is a mapping, has no duplicate keys.
pub open spec fn top_unique(v: SpecValue) -> bool {
    v matches SpecValue::Hash(h) ==> unique_keys(h)
}

/// A well-formed document: every mapping in the tree is a real mapping,
/// with no two entries sharing a key. Documents produced by a document
/// parser are always well formed.
pub open spec fn wf_value(v: SpecValue) -> bool
    decreases v,
{
    match v {
        SpecValue::Array(a) => wf_values(a),
        SpecValue::Hash(h) => unique_keys(h) && wf_entries(h),
        _ => true,
    }
}

/// Well-formedness of every member of a value sequence.
pub open spec fn wf_values(s: Seq<SpecValue>) -> bool
    decreases s,
{
    s.len() == 0 || (wf_value(s[0]) && wf_values(s.skip(1)))
}

/// Well-formedness of every key and value of an entry sequence.
pub open spec fn wf_entries(s: Seq<(SpecValue, SpecValue)>) -> bool
    decreases s,
{
    s.len() == 0 || (wf_value(s[0].0) && wf_value(s[0].1) && wf_entries(s.skip(1)))
}

/// An owned deep copy of an entry list, equal to the original in the
/// model.
pub fn entries_dup(entries: &Vec<(Value, Value)>) -> (r: Vec<(Value, Value)>)
    ensures
        view_entries(r@) == view_entries(entries@),
{
    let mut out: Vec<(Value, Value)> = Vec::new();
    let n: usize = entries.len();
    let mut i: usize = 0;
    while i < n
        invariant
            n == entries@.len(),
            i <= n,
            out@.len() == i,
            forall|j: int| 0 <= j < i ==> view_value(out@[j].0) == view_value(entries@[j].0)
                && view_value(out@[j].1) == view_value(entries@[j].1),
        decreases n - i,
    {
        let k = value_dup(&entries[i].0);
        let w = value_dup(&entries[i].1);
        out.push((k, w));
        i += 1;
    }
    proof {
        lemma_view_entries(out@);
        lemma_view_entries(entries@);
        assert(view_entries(out@) =~= view_entries(entries@));
    }
    out
}

/// An owned deep copy of a document, equal to the original in the model.
pub fn value_dup(v: &Value) -> (r: Value)
    ensures
        view_value(r) == view_value(*v),
    decreases *v,
{
    match v {
        Value::Real(s) => Value::Real(s.clone()),
        Value::Integer(n) => Value::Integer(*n),
        Value::Str(s) => Value::Str(s.clone()),
        Value::Boolean(b) => Value::Boolean(*b),
        Value::Array(items) => {
            let mut out: Vec<Value> = Vec::new();
            let n: usize = items.len();
            let mut i: usize = 0;
            #[verifier::loop_isolation(false)]
            while i < n
                invariant
                    n == items@.len(),
                    i <= n,
                    out@.len() == i,
                    forall|j: int| 0 <= j < i ==> view_value(out@[j]) == view_value(items@[j]),
                decreases n - i,
            {
                proof {
                    assert(decreases_to!(*v => (*v)->Array_0));
                    assert((*v)->Array_0 == *items);
                    assert(decreases_to!(*items => items@));
                    assert(decreases_to!(items@ => items@[i as int]));
                }
                out.push(value_dup(&items[i]));
                i += 1;
            }
            proof {
                lemma_view_values(out@);
                lemma_view_values(items@);
                assert(view_values(out@) =~= view_values(items@));
            }
            Value::Array(out)
        },
        Value::Hash(entries) => {
            let mut out: Vec<(Value, Value)> = Vec::new();
            let n: usize = entries.len();
            let mut i: usize = 0;
            #[verifier::loop_isolation(false)]
            while i < n
                invariant
                    n == entries@.len(),
                    i <= n,
                    out@.len() == i,
                    forall|j: int| 0 <= j < i ==> view_value(out@[j].0) == view_value(
                        entries@[j].0,
                    ) && view_value(out@[j].1) == view_value(entries@[j].1),
                decreases n - i,
            {
                proof {
                    assert(decreases_to!(*v => (*v)->Hash_0));
                    assert((*v)->Hash_0 == *entries);
                    assert(decreases_to!(*entries => entries@));
                    assert(decreases_to!(entries@ => entries@[i as int]));
                    assert(decreases_to!(entries@[i as int] => entries@[i as int].0));
                    assert(decreases_to!(entries@[i as int] => entries@[i as int].1));
                }
                let k = value_dup(&entries[i].0);
                let w = value_dup(&entries[i].1);
                out.push((k, w));
                i += 1;
            }
            proof {
                lemma_view_entries(out@);
                lemma_view_entries(entries@);
                assert(view_entries(out@) =~= view_entries(entries@));
            }
            Value::Hash(out)
        },
        Value::Null => Value::Null,
        Value::BadValue => Value::BadValue,
    }
}

} // verus!
