//! The path algebra and the document operations: joining path chains
//! into one absolute path, navigating a document along a path, the
//! truthiness of a value, stringifying a scalar, and the deep merge of
//! an ordered list of documents.

use vstd::prelude::*;
use vstd::string::StringExecFns;
use crate::errors::Error;
use crate::parse::{SpecPathElem, YamlPath, YamlPathElem, dup_elem, view_elem, view_path};
use crate::text::{dec_int, i64_string};
use crate::value::{
    SpecValue, Value, has_key, lemma_view_entries, lemma_view_values, top_unique, unique_keys,
    view_entries, view_value, view_values, wf_value,
};

verus! {

/// The normal form of a flat chain of path elements, evaluated left to
/// right with an output stack: descents push, `Up` pops (a no-op on an
/// empty stack), `Root` clears the stack.
pub open spec fn path_norm(s: Seq<SpecPathElem>) -> Seq<SpecPathElem>
    decreases s.len(),
{
    if s.len() == 0 {
        Seq::empty()
    } else {
        let p = path_norm(s.drop_last());
        match s.last() {
            SpecPathElem::Up => if p.len() == 0 {
                p
            } else {
                p.drop_last()
            },
            SpecPathElem::Root => Seq::empty(),
            e => p.push(e),
        }
    }
}

/// The concatenation of a list of paths into one flat element chain,
/// in argument order.
pub open spec fn cat_paths(ps: Seq<Seq<SpecPathElem>>) -> Seq<SpecPathElem>
    decreases ps.len(),
{
    if ps.len() == 0 {
        Seq::empty()
    } else {
        cat_paths(ps.drop_last()) + ps.last()
    }
}

/// The models of a list of borrowed paths.
pub open spec fn view_paths(ps: Seq<&YamlPath>) -> Seq<Seq<SpecPathElem>> {
    Seq::new(ps.len(), |i: int| view_path(ps[i]@))
}

/// Collapse an ordered chain of paths into one absolute path: the
/// elements of all inputs, in order, evaluated left to right; descents
/// accumulate, `Up` drops the most recent descent (harmlessly ignored
/// at the start of the chain), `Root` starts over. Total: no input
/// fails, however many excess `Up` elements it holds.
pub fn pathjoin(paths: &[&YamlPath]) -> (r: YamlPath)
    ensures
        view_path(r@) == path_norm(cat_paths(view_paths(paths@))),
{
    let ghost all: Seq<Seq<SpecPathElem>> = view_paths(paths@);
    let mut ret: YamlPath = Vec::new();
    proof {
        assert(view_path(ret@) =~= path_norm(cat_paths(all.subrange(0, 0))));
    }
    let mut i: usize = 0;
    while i < paths.len()
        invariant
            all == view_paths(paths@),
            i <= paths@.len(),
            view_path(ret@) == path_norm(cat_paths(all.subrange(0, i as int))),
        decreases paths@.len() - i,
    {
        let p: &YamlPath = paths[i];
        let ghost done: Seq<SpecPathElem> = cat_paths(all.subrange(0, i as int));
        let mut j: usize = 0;
        while j < p.len()
            invariant
                all == view_paths(paths@),
                i < paths@.len(),
                p == paths@[i as int],
                done == cat_paths(all.subrange(0, i as int)),
                j <= p@.len(),
                view_path(ret@) == path_norm(done + view_path(p@).take(j as int)),
            decreases p@.len() - j,
        {
            let ghost prefix: Seq<SpecPathElem> = done + view_path(p@).take(j as int);
            proof {
                assert((done + view_path(p@).take(j + 1)).drop_last() =~= prefix);
                assert((done + view_path(p@).take(j + 1)).last() == view_elem(p@[j as int]));
            }
            match &p[j] {
                YamlPathElem::Up => {
                    let ghost before: Seq<YamlPathElem> = ret@;
                    let _ = ret.pop();
                    proof {
                        if before.len() > 0 {
                            assert(view_path(ret@) =~= view_path(before).drop_last());
                        } else {
                            assert(view_path(ret@) =~= view_path(before));
                        }
                    }
                },
                YamlPathElem::Root => {
                    ret.clear();
                },
                e => {
                    ret.push(dup_elem(e));
                },
            }
            proof {
                assert(view_path(ret@) =~= path_norm(done + view_path(p@).take(j + 1)));
            }
            j += 1;
        }
        proof {
            assert(all.subrange(0, i + 1).drop_last() =~= all.subrange(0, i as int));
            assert(view_path(p@).take(p@.len() as int) =~= view_path(p@));
            assert(cat_paths(all.subrange(0, i + 1)) =~= done + view_path(p@));
        }
        i += 1;
    }
    proof {
        assert(all.subrange(0, all.len() as int) =~= all);
    }
    ret
}

/// A path element that descends (into a mapping member or a sequence
/// element), as opposed to the structural `Up` and `Root` operators.
pub open spec fn is_down(e: SpecPathElem) -> bool {
    e is DownObject || e is DownArray
}

/// However many excess `Up` operators a chain holds, collapsing it
/// never fails: a leading `Up` simply does nothing.
pub proof fn lemma_path_norm_up_on_empty(s: Seq<SpecPathElem>)
    ensures
        path_norm(seq![SpecPathElem::Up] + s) == path_norm(s),
    decreases s.len(),
{
    reveal_with_fuel(path_norm, 3);
    if s.len() == 0 {
        assert((seq![SpecPathElem::Up] + s) =~= seq![SpecPathElem::Up]);
        assert(seq![SpecPathElem::Up].drop_last() =~= Seq::<SpecPathElem>::empty());
    } else {
        assert((seq![SpecPathElem::Up] + s).drop_last() =~= seq![SpecPathElem::Up]
            + s.drop_last());
        assert((seq![SpecPathElem::Up] + s).last() == s.last());
        lemma_path_norm_up_on_empty(s.drop_last());
    }
}

/// A collapsed chain consists of descents only: the structural
/// operators are always consumed.
pub proof fn lemma_path_norm_down(s: Seq<SpecPathElem>)
    ensures
        forall|i: int| 0 <= i < path_norm(s).len() ==> is_down(#[trigger] path_norm(s)[i]),
    decreases s.len(),
{
    if s.len() > 0 {
        lemma_path_norm_down(s.drop_last());
        let p = path_norm(s.drop_last());
        assert forall|i: int| 0 <= i < path_norm(s).len() implies is_down(
            #[trigger] path_norm(s)[i],
        ) by {
            match s.last() {
                SpecPathElem::Up => {
                    if p.len() > 0 {
                        assert(path_norm(s)[i] == p[i]);
                        assert(is_down(p[i]));
                    }
                },
                SpecPathElem::Root => {},
                e => {
                    if i < p.len() {
                        assert(path_norm(s)[i] == p[i]);
                        assert(is_down(p[i]));
                    } else {
                        assert(path_norm(s)[i] == e);
                    }
                },
            }
        }
    }
}

/// The truthiness of a value for section guards: absent, null, `false`,
/// the empty sequence and the empty mapping are false; everything else
/// (zero, the empty string, any other scalar) is true.
pub open spec fn spec_bool(v: SpecValue) -> bool {
    match v {
        SpecValue::BadValue => false,
        SpecValue::Null => false,
        SpecValue::Boolean(b) => b,
        SpecValue::Array(a) => a.len() > 0,
        SpecValue::Hash(h) => h.len() > 0,
        _ => true,
    }
}

/// Decide the truthiness of a document value.
pub fn bool(yaml: &Value) -> (r: bool)
    ensures
        r == spec_bool(view_value(*yaml)),
{
    match yaml {
        Value::BadValue => false,
        Value::Null => false,
        Value::Boolean(b) => *b,
        Value::Array(a) => {
            proof {
                lemma_view_values(a@);
            }
            a.len() > 0
        },
        Value::Hash(h) => {
            proof {
                lemma_view_entries(h@);
            }
            h.len() > 0
        },
        _ => true,
    }
}

/// The text of a scalar value: numbers in exact decimal (floating
/// values keep their source text), strings verbatim, booleans as
/// `true`/`false`, null as the empty string. A sequence, a mapping or
/// an absent value has no text: that is an error, unless `ignore` is
/// set, in which case it renders as the empty string.
pub open spec fn spec_string(v: SpecValue, ignore: bool) -> Result<Seq<char>, ()> {
    match v {
        SpecValue::Real(x) => Ok(x),
        SpecValue::Integer(x) => Ok(dec_int(x as int)),
        SpecValue::Str(x) => Ok(x),
        SpecValue::Boolean(x) => Ok(if x {
            "true"@
        } else {
            "false"@
        }),
        SpecValue::Null => Ok(Seq::empty()),
        _ => if ignore {
            Ok(Seq::empty())
        } else {
            Err(())
        },
    }
}

/// Stringify a scalar value, or fail with a `Type` error on a shape
/// that has no text.
pub fn string(yaml: &Value, ignore: bool) -> (r: Result<String, Error>)
    ensures
        match r {
            Ok(s) => spec_string(view_value(*yaml), ignore) == Ok::<Seq<char>, ()>(s@),
            Err(e) => spec_string(view_value(*yaml), ignore) is Err && e is Type,
        },
{
    match yaml {
        Value::Real(x) => Ok(x.clone()),
        Value::Integer(x) => Ok(i64_string(*x)),
        Value::Str(x) => Ok(x.clone()),
        Value::Boolean(x) => {
            if *x {
                Ok(String::from_str("true"))
            } else {
                Ok(String::from_str("false"))
            }
        },
        Value::Null => Ok(String::new()),
        _ => {
            if ignore {
                Ok(String::new())
            } else {
                Err(Error::Type(String::from_str("no text for this shape of value")))
            }
        },
    }
}

/// The value of the first entry whose key equals `key`, or the absent
/// sentinel if no entry matches.
pub open spec fn hash_lookup(entries: Seq<(SpecValue, SpecValue)>, key: SpecValue) -> SpecValue
    decreases entries.len(),
{
    if entries.len() == 0 {
        SpecValue::BadValue
    } else if entries[0].0 == key {
        entries[0].1
    } else {
        hash_lookup(entries.skip(1), key)
    }
}

/// One descent into a mapping member: on anything but a mapping, or on
/// a missing key, the absent sentinel.
pub open spec fn spec_down_obj(cur: SpecValue, key: Seq<char>) -> SpecValue {
    match cur {
        SpecValue::Hash(entries) => hash_lookup(entries, SpecValue::Str(key)),
        _ => SpecValue::BadValue,
    }
}

/// One descent into a sequence element: on anything but a sequence, or
/// out of range, the absent sentinel.
pub open spec fn spec_down_arr(cur: SpecValue, n: i64) -> SpecValue {
    match cur {
        SpecValue::Array(items) => if 0 <= n < items.len() {
            items[n as int]
        } else {
            SpecValue::BadValue
        },
        _ => SpecValue::BadValue,
    }
}

/// Walking a document along a path, carrying the positions already
/// visited so that `Up` and `Root` work inside an uncollapsed path:
/// descents push the current position, `Up` returns to the last pushed
/// position (to the root if none is left), `Root` returns to the root.
pub open spec fn spec_get_from(
    root: SpecValue,
    cur: SpecValue,
    stack: Seq<SpecValue>,
    path: Seq<SpecPathElem>,
) -> SpecValue
    decreases path.len(),
{
    if path.len() == 0 {
        cur
    } else {
        match path[0] {
            SpecPathElem::DownObject(key) => spec_get_from(
                root,
                spec_down_obj(cur, key),
                stack.push(cur),
                path.skip(1),
            ),
            SpecPathElem::DownArray(n) => spec_get_from(
                root,
                spec_down_arr(cur, n),
                stack.push(cur),
                path.skip(1),
            ),
            SpecPathElem::Up => if stack.len() == 0 {
                spec_get_from(root, root, stack, path.skip(1))
            } else {
                spec_get_from(root, stack.last(), stack.drop_last(), path.skip(1))
            },
            SpecPathElem::Root => spec_get_from(root, root, stack, path.skip(1)),
        }
    }
}

/// The value a path denotes in a document, starting at the root.
pub open spec fn spec_get(root: SpecValue, path: Seq<SpecPathElem>) -> SpecValue {
    spec_get_from(root, root, Seq::empty(), path)
}

/// The models of a stack of borrowed values.
pub open spec fn view_stack(s: Seq<&Value>) -> Seq<SpecValue> {
    Seq::new(s.len(), |i: int| view_value(*s[i]))
}

/// A borrowed absent sentinel.
fn bad_ref<'a>() -> (r: &'a Value)
    ensures
        view_value(*r) == SpecValue::BadValue,
{
    &Value::BadValue
}

/// The first entry of `entries` whose key is the string `key`, or the
/// absent sentinel.
fn hash_get<'a>(entries: &'a Vec<(Value, Value)>, key: &String) -> (r: &'a Value)
    ensures
        view_value(*r) == hash_lookup(view_entries(entries@), SpecValue::Str(key@)),
{
    proof {
        lemma_view_entries(entries@);
    }
    let ghost all: Seq<(SpecValue, SpecValue)> = view_entries(entries@);
    proof {
        assert(all.skip(0) =~= all);
    }
    let n: usize = entries.len();
    let mut i: usize = 0;
    while i < n
        invariant
            n == entries@.len(),
            i <= n,
            all == view_entries(entries@),
            all.len() == n,
            forall|j: int| 0 <= j < n ==> all[j] == (
                view_value(entries@[j].0),
                view_value(entries@[j].1),
            ),
            hash_lookup(all, SpecValue::Str(key@)) == hash_lookup(
                all.skip(i as int),
                SpecValue::Str(key@),
            ),
        decreases n - i,
    {
        let matched: bool = match &entries[i].0 {
            Value::Str(s) => s.eq(key),
            _ => false,
        };
        proof {
            assert(all.skip(i as int)[0] == all[i as int]);
            assert(all.skip(i as int).skip(1) =~= all.skip(i + 1));
        }
        if matched {
            return &entries[i].1;
        }
        i += 1;
    }
    proof {
        assert(all.skip(n as int) =~= Seq::<(SpecValue, SpecValue)>::empty());
    }
    bad_ref()
}

/// Fetch the value a path denotes, never failing: a missing member, an
/// out-of-range index or a descent into the wrong shape of value all
/// yield the absent sentinel.
pub fn get<'a>(root: &'a Value, path: &YamlPath) -> (r: &'a Value)
    ensures
        view_value(*r) == spec_get(view_value(*root), view_path(path@)),
{
    let ghost rootm: SpecValue = view_value(*root);
    let ghost pathm: Seq<SpecPathElem> = view_path(path@);
    let mut cur: &'a Value = root;
    let mut stack: Vec<&'a Value> = Vec::new();
    proof {
        assert(pathm.skip(0) =~= pathm);
        assert(view_stack(stack@) =~= Seq::<SpecValue>::empty());
    }
    let n: usize = path.len();
    let mut k: usize = 0;
    while k < n
        invariant
            n == path@.len(),
            k <= n,
            rootm == view_value(*root),
            pathm == view_path(path@),
            spec_get_from(rootm, view_value(*cur), view_stack(stack@), pathm.skip(k as int))
                == spec_get(rootm, pathm),
        decreases n - k,
    {
        let ghost rest: Seq<SpecPathElem> = pathm.skip(k as int);
        proof {
            assert(rest[0] == view_elem(path@[k as int]));
            assert(rest.skip(1) =~= pathm.skip(k + 1));
        }
        match &path[k] {
            YamlPathElem::DownObject(key) => {
                let ghost before: Seq<&Value> = stack@;
                stack.push(cur);
                let next: &'a Value = match cur {
                    Value::Hash(entries) => hash_get(entries, key),
                    _ => bad_ref(),
                };
                proof {
                    assert(view_stack(stack@) =~= view_stack(before).push(view_value(*cur)));
                }
                cur = next;
            },
            YamlPathElem::DownArray(idx) => {
                let ghost before: Seq<&Value> = stack@;
                stack.push(cur);
                let next: &'a Value = match cur {
                    Value::Array(items) => {
                        proof {
                            lemma_view_values(items@);
                        }
                        if 0 <= *idx && (*idx as u64) < (items.len() as u64) {
                            &items[*idx as usize]
                        } else {
                            bad_ref()
                        }
                    },
                    _ => bad_ref(),
                };
                proof {
                    assert(view_stack(stack@) =~= view_stack(before).push(view_value(*cur)));
                }
                cur = next;
            },
            YamlPathElem::Up => {
                let ghost before: Seq<&Value> = stack@;
                match stack.pop() {
                    Some(prev) => {
                        proof {
                            assert(view_stack(stack@) =~= view_stack(before).drop_last());
                        }
                        cur = prev;
                    },
                    None => {
                        cur = root;
                    },
                }
            },
            YamlPathElem::Root => {
                cur = root;
            },
        }
        k += 1;
    }
    proof {
        assert(pathm.skip(n as int) =~= Seq::<SpecPathElem>::empty());
    }
    cur
}

/// Insert one key/value pair into an entry list: if the key is already
/// present, the existing value is combined with the new one in place;
/// otherwise the pair is appended at the end.
pub open spec fn insert_entry(
    acc: Seq<(SpecValue, SpecValue)>,
    k: SpecValue,
    v: SpecValue,
) -> Seq<(SpecValue, SpecValue)>
    decreases v, acc.len(),
{
    if acc.len() == 0 {
        seq![(k, v)]
    } else if acc[0].0 == k {
        seq![(acc[0].0, spec_combine(acc[0].1, v))] + acc.skip(1)
    } else {
        seq![acc[0]] + insert_entry(acc.skip(1), k, v)
    }
}

/// Insert every entry of `next` into `acc`, left to right.
pub open spec fn combine_entries(
    acc: Seq<(SpecValue, SpecValue)>,
    next: Seq<(SpecValue, SpecValue)>,
) -> Seq<(SpecValue, SpecValue)>
    decreases next, 1nat,
{
    if next.len() == 0 {
        acc
    } else {
        combine_entries(insert_entry(acc, next[0].0, next[0].1), next.skip(1))
    }
}

/// One step of the deep merge: two sequences concatenate, two mappings
/// merge key by key (values of shared keys combine recursively), and
/// any other pairing replaces the accumulator with `next` wholesale.
pub open spec fn spec_combine(acc: SpecValue, next: SpecValue) -> SpecValue
    decreases next, 0nat,
{
    match acc {
        SpecValue::Array(a) => match next {
            SpecValue::Array(b) => SpecValue::Array(a + b),
            _ => next,
        },
        SpecValue::Hash(h) => match next {
            SpecValue::Hash(n) => SpecValue::Hash(combine_entries(h, n)),
            _ => next,
        },
        _ => next,
    }
}

/// The left fold of the deep merge over a list of documents.
pub open spec fn merge_from(acc: SpecValue, docs: Seq<SpecValue>) -> SpecValue
    decreases docs.len(),
{
    if docs.len() == 0 {
        acc
    } else {
        merge_from(spec_combine(acc, docs[0]), docs.skip(1))
    }
}

/// The deep merge of an ordered list of documents, starting from an
/// empty mapping: later sources override or augment earlier ones;
/// lists grow, objects merge key by key, everything else is
/// last-write-wins.
pub open spec fn spec_merge(docs: Seq<SpecValue>) -> SpecValue {
    merge_from(SpecValue::Hash(Seq::empty()), docs)
}

/// The index of the first entry whose key equals `*k`, if any.
pub(crate) fn find_key(entries: &Vec<(Value, Value)>, k: &Value) -> (r: Option<usize>)
    ensures
        match r {
            Some(j) => j < entries@.len() && view_value(entries@[j as int].0) == view_value(*k)
                && forall|i: int| 0 <= i < j ==> view_value(entries@[i].0) != view_value(*k),
            None => forall|i: int| 0 <= i < entries@.len() ==> view_value(entries@[i].0)
                != view_value(*k),
        },
{
    let n: usize = entries.len();
    let mut j: usize = 0;
    while j < n
        invariant
            n == entries@.len(),
            j <= n,
            forall|i: int| 0 <= i < j ==> view_value(entries@[i].0) != view_value(*k),
        decreases n - j,
    {
        if crate::value::value_eq(&entries[j].0, k) {
            return Some(j);
        }
        j += 1;
    }
    None
}

/// `insert_entry` on a key that first occurs at index `j` rewrites
/// exactly that entry's value.
proof fn lemma_insert_at(s: Seq<(SpecValue, SpecValue)>, k: SpecValue, v: SpecValue, j: int)
    requires
        0 <= j < s.len(),
        s[j].0 == k,
        forall|i: int| 0 <= i < j ==> s[i].0 != k,
    ensures
        insert_entry(s, k, v) == s.update(j, (s[j].0, spec_combine(s[j].1, v))),
    decreases j,
{
    if j == 0 {
        assert(seq![(s[0].0, spec_combine(s[0].1, v))] + s.skip(1) =~= s.update(
            0,
            (s[0].0, spec_combine(s[0].1, v)),
        ));
    } else {
        assert(s.skip(1)[j - 1] == s[j]);
        assert(forall|i: int| 0 <= i < j - 1 ==> s.skip(1)[i] == s[i + 1]);
        lemma_insert_at(s.skip(1), k, v, j - 1);
        assert(seq![s[0]] + s.skip(1).update(j - 1, (s[j].0, spec_combine(s[j].1, v)))
            =~= s.update(j, (s[j].0, spec_combine(s[j].1, v))));
    }
}

/// `insert_entry` on a missing key appends the pair at the end.
proof fn lemma_insert_missing(s: Seq<(SpecValue, SpecValue)>, k: SpecValue, v: SpecValue)
    requires
        forall|i: int| 0 <= i < s.len() ==> s[i].0 != k,
    ensures
        insert_entry(s, k, v) == s.push((k, v)),
    decreases s.len(),
{
    if s.len() == 0 {
        assert(seq![(k, v)] =~= s.push((k, v)));
    } else {
        assert(forall|i: int| 0 <= i < s.skip(1).len() ==> s.skip(1)[i] == s[i + 1]);
        lemma_insert_missing(s.skip(1), k, v);
        assert(seq![s[0]] + s.skip(1).push((k, v)) =~= s.push((k, v)));
    }
}

/// One step of the deep merge, combining `acc` with a copy of `*next`.
fn combine(acc: Value, next: &Value) -> (r: Value)
    ensures
        view_value(r) == spec_combine(view_value(acc), view_value(*next)),
    decreases *next,
{
    match acc {
        Value::Array(a) => match next {
            Value::Array(b) => {
                let mut a = a;
                let ghost a0: Seq<Value> = a@;
                let n: usize = b.len();
                let mut c: usize = 0;
                while c < n
                    invariant
                        n == b@.len(),
                        c <= n,
                        a@.len() == a0.len() + c,
                        forall|i: int| 0 <= i < a0.len() ==> view_value(a@[i]) == view_value(
                            a0[i],
                        ),
                        forall|i: int| 0 <= i < c ==> view_value(a@[a0.len() + i])
                            == view_value(b@[i]),
                    decreases n - c,
                {
                    a.push(crate::value::value_dup(&b[c]));
                    c += 1;
                }
                proof {
                    lemma_view_values(a@);
                    lemma_view_values(a0);
                    lemma_view_values(b@);
                    assert(view_values(a@) =~= view_values(a0) + view_values(b@));
                }
                Value::Array(a)
            },
            _ => crate::value::value_dup(next),
        },
        Value::Hash(h) => match next {
            Value::Hash(nb) => {
                let mut h = h;
                let ghost h0: Seq<(SpecValue, SpecValue)> = view_entries(h@);
                let ghost nm: Seq<(SpecValue, SpecValue)> = view_entries(nb@);
                proof {
                    lemma_view_entries(nb@);
                    assert(nm.skip(0) =~= nm);
                }
                let n: usize = nb.len();
                let mut c: usize = 0;
                #[verifier::loop_isolation(false)]
                while c < n
                    invariant
                        n == nb@.len(),
                        c <= n,
                        nm == view_entries(nb@),
                        nm.len() == n,
                        forall|i: int| 0 <= i < n ==> nm[i] == (
                            view_value(nb@[i].0),
                            view_value(nb@[i].1),
                        ),
                        combine_entries(h0, nm) == combine_entries(
                            view_entries(h@),
                            nm.skip(c as int),
                        ),
                    decreases n - c,
                {
                    let ghost hc: Seq<(SpecValue, SpecValue)> = view_entries(h@);
                    proof {
                        lemma_view_entries(h@);
                        assert(nm.skip(c as int)[0] == nm[c as int]);
                        assert(nm.skip(c as int).skip(1) =~= nm.skip(c + 1));
                        assert(decreases_to!(*next => (*next)->Hash_0));
                        assert((*next)->Hash_0 == *nb);
                        assert(decreases_to!(*nb => nb@));
                        assert(decreases_to!(nb@ => nb@[c as int]));
                        assert(decreases_to!(nb@[c as int] => nb@[c as int].1));
                    }
                    match find_key(&h, &nb[c].0) {
                        Some(j) => {
                            let (k0, v0) = h.remove(j);
                            let nv = combine(v0, &nb[c].1);
                            h.insert(j, (k0, nv));
                            proof {
                                lemma_view_entries(h@);
                                lemma_insert_at(
                                    hc,
                                    view_value(nb@[c as int].0),
                                    view_value(nb@[c as int].1),
                                    j as int,
                                );
                                assert(view_entries(h@) =~= insert_entry(
                                    hc,
                                    view_value(nb@[c as int].0),
                                    view_value(nb@[c as int].1),
                                ));
                            }
                        },
                        None => {
                            let k = crate::value::value_dup(&nb[c].0);
                            let w = crate::value::value_dup(&nb[c].1);
                            h.push((k, w));
                            proof {
                                lemma_view_entries(h@);
                                lemma_insert_missing(
                                    hc,
                                    view_value(nb@[c as int].0),
                                    view_value(nb@[c as int].1),
                                );
                                assert(view_entries(h@) =~= insert_entry(
                                    hc,
                                    view_value(nb@[c as int].0),
                                    view_value(nb@[c as int].1),
                                ));
                            }
                        },
                    }
                    c += 1;
                }
                proof {
                    assert(nm.skip(n as int) =~= Seq::<(SpecValue, SpecValue)>::empty());
                }
                Value::Hash(h)
            },
            _ => crate::value::value_dup(next),
        },
        _ => crate::value::value_dup(next),
    }
}

/// Replace the value of the first entry whose key equals `k`, or
/// append the pair if no entry has that key.
pub open spec fn set_entry(
    s: Seq<(SpecValue, SpecValue)>,
    k: SpecValue,
    v: SpecValue,
) -> Seq<(SpecValue, SpecValue)>
    decreases s.len(),
{
    if s.len() == 0 {
        seq![(k, v)]
    } else if s[0].0 == k {
        seq![(s[0].0, v)] + s.skip(1)
    } else {
        seq![s[0]] + set_entry(s.skip(1), k, v)
    }
}

/// A key that first matches at index `j` is looked up to that entry's
/// value.
pub(crate) proof fn lemma_lookup_at(s: Seq<(SpecValue, SpecValue)>, k: SpecValue, j: int)
    requires
        0 <= j < s.len(),
        s[j].0 == k,
        forall|i: int| 0 <= i < j ==> s[i].0 != k,
    ensures
        hash_lookup(s, k) == s[j].1,
    decreases j,
{
    if j > 0 {
        assert(s.skip(1)[j - 1] == s[j]);
        assert(forall|i: int| 0 <= i < j - 1 ==> s.skip(1)[i] == s[i + 1]);
        lemma_lookup_at(s.skip(1), k, j - 1);
    }
}

/// `set_entry` on a key that first occurs at index `j` rewrites exactly
/// that entry's value.
pub(crate) proof fn lemma_set_at(s: Seq<(SpecValue, SpecValue)>, k: SpecValue, v: SpecValue, j: int)
    requires
        0 <= j < s.len(),
        s[j].0 == k,
        forall|i: int| 0 <= i < j ==> s[i].0 != k,
    ensures
        set_entry(s, k, v) == s.update(j, (s[j].0, v)),
    decreases j,
{
    if j == 0 {
        assert(seq![(s[0].0, v)] + s.skip(1) =~= s.update(0, (s[0].0, v)));
    } else {
        assert(s.skip(1)[j - 1] == s[j]);
        assert(forall|i: int| 0 <= i < j - 1 ==> s.skip(1)[i] == s[i + 1]);
        lemma_set_at(s.skip(1), k, v, j - 1);
        assert(seq![s[0]] + s.skip(1).update(j - 1, (s[j].0, v)) =~= s.update(j, (s[j].0, v)));
    }
}

/// `set_entry` on a missing key appends the pair at the end.
pub(crate) proof fn lemma_set_missing(s: Seq<(SpecValue, SpecValue)>, k: SpecValue, v: SpecValue)
    requires
        forall|i: int| 0 <= i < s.len() ==> s[i].0 != k,
    ensures
        set_entry(s, k, v) == s.push((k, v)),
    decreases s.len(),
{
    if s.len() == 0 {
        assert(seq![(k, v)] =~= s.push((k, v)));
    } else {
        assert(forall|i: int| 0 <= i < s.skip(1).len() ==> s.skip(1)[i] == s[i + 1]);
        lemma_set_missing(s.skip(1), k, v);
        assert(seq![s[0]] + s.skip(1).push((k, v)) =~= s.push((k, v)));
    }
}

/// Set `k` to `v` in an owned entry list: the first entry with that key
/// is rewritten, or the pair is appended.
pub(crate) fn set_key(entries: Vec<(Value, Value)>, k: Value, v: Value) -> (r: Vec<(Value, Value)>)
    ensures
        view_entries(r@) == set_entry(view_entries(entries@), view_value(k), view_value(v)),
{
    let ghost s0: Seq<(SpecValue, SpecValue)> = view_entries(entries@);
    proof {
        lemma_view_entries(entries@);
    }
    let mut entries = entries;
    match find_key(&entries, &k) {
        Some(j) => {
            let (k0, _) = entries.remove(j);
            entries.insert(j, (k0, v));
            proof {
                lemma_set_at(s0, view_value(k), view_value(v), j as int);
                lemma_view_entries(entries@);
                assert(view_entries(entries@) =~= set_entry(s0, view_value(k), view_value(v)));
            }
        },
        None => {
            entries.push((k, v));
            proof {
                lemma_set_missing(s0, view_value(k), view_value(v));
                lemma_view_entries(entries@);
                assert(view_entries(entries@) =~= set_entry(s0, view_value(k), view_value(v)));
            }
        },
    }
    entries
}

/// Inserting a pair keeps keys unique, and grows the key set by
/// exactly the inserted key.
proof fn lemma_insert_unique(acc: Seq<(SpecValue, SpecValue)>, k: SpecValue, v: SpecValue)
    requires
        unique_keys(acc),
    ensures
        unique_keys(insert_entry(acc, k, v)),
        forall|m: SpecValue| #[trigger] has_key(insert_entry(acc, k, v), m) <==> (has_key(acc, m)
            || m == k),
    decreases acc.len(),
{
    let res = insert_entry(acc, k, v);
    if acc.len() == 0 {
        assert(res =~= seq![(k, v)]);
        assert forall|m: SpecValue| #[trigger] has_key(res, m) implies (has_key(acc, m) || m
            == k) by {
            let i = choose|i: int| 0 <= i < res.len() && res[i].0 == m;
            assert(i == 0);
        }
        assert forall|m: SpecValue| (has_key(acc, m) || m == k) implies #[trigger] has_key(
            res,
            m,
        ) by {
            assert(res[0].0 == k);
        }
    } else if acc[0].0 == k {
        assert(res.len() == acc.len());
        assert forall|i: int| 0 <= i < res.len() implies #[trigger] res[i].0 == acc[i].0 by {
            if i > 0 {
                assert(res[i] == acc.skip(1)[i - 1]);
            }
        }
        assert forall|m: SpecValue| #[trigger] has_key(res, m) implies (has_key(acc, m) || m
            == k) by {
            let i = choose|i: int| 0 <= i < res.len() && res[i].0 == m;
            assert(acc[i].0 == m);
        }
        assert forall|m: SpecValue| (has_key(acc, m) || m == k) implies #[trigger] has_key(
            res,
            m,
        ) by {
            if m == k {
                assert(res[0].0 == m);
            } else {
                let i = choose|i: int| 0 <= i < acc.len() && acc[i].0 == m;
                assert(res[i].0 == m);
            }
        }
    } else {
        assert(unique_keys(acc.skip(1))) by {
            assert(forall|i: int, j: int| 0 <= i < j < acc.skip(1).len() ==> acc.skip(1)[i]
                == acc[i + 1] && acc.skip(1)[j] == acc[j + 1]);
        }
        lemma_insert_unique(acc.skip(1), k, v);
        let ins = insert_entry(acc.skip(1), k, v);
        assert(res =~= seq![acc[0]] + ins);
        assert(!has_key(acc.skip(1), acc[0].0)) by {
            if has_key(acc.skip(1), acc[0].0) {
                let i = choose|i: int| 0 <= i < acc.skip(1).len() && acc.skip(1)[i].0 == acc[0].0;
                assert(acc[i + 1].0 == acc[0].0);
            }
        }
        assert(!has_key(ins, acc[0].0));
        assert forall|i: int, j: int| 0 <= i < j < res.len() implies res[i].0 != res[j].0 by {
            assert(res[j] == ins[j - 1]);
            if i == 0 {
                if res[j].0 == acc[0].0 {
                    assert(has_key(ins, acc[0].0));
                }
            } else {
                assert(res[i] == ins[i - 1]);
            }
        }
        assert forall|m: SpecValue| #[trigger] has_key(res, m) implies (has_key(acc, m) || m
            == k) by {
            let i = choose|i: int| 0 <= i < res.len() && res[i].0 == m;
            if i == 0 {
                assert(acc[0].0 == m);
            } else {
                assert(ins[i - 1].0 == m);
                assert(has_key(ins, m));
                if has_key(acc.skip(1), m) {
                    let t = choose|t: int| 0 <= t < acc.skip(1).len() && acc.skip(1)[t].0 == m;
                    assert(acc[t + 1].0 == m);
                }
            }
        }
        assert forall|m: SpecValue| (has_key(acc, m) || m == k) implies #[trigger] has_key(
            res,
            m,
        ) by {
            if m == k {
                assert(has_key(ins, m));
                let t = choose|t: int| 0 <= t < ins.len() && ins[t].0 == m;
                assert(res[t + 1].0 == m);
            } else {
                let i = choose|i: int| 0 <= i < acc.len() && acc[i].0 == m;
                if i == 0 {
                    assert(res[0].0 == m);
                } else {
                    assert(acc.skip(1)[i - 1].0 == m);
                    assert(has_key(acc.skip(1), m));
                    assert(has_key(ins, m));
                    let t = choose|t: int| 0 <= t < ins.len() && ins[t].0 == m;
                    assert(res[t + 1].0 == m);
                }
            }
        }
    }
}

/// Folding entries into a mapping with unique keys keeps them unique.
proof fn lemma_combine_entries_unique(
    acc: Seq<(SpecValue, SpecValue)>,
    next: Seq<(SpecValue, SpecValue)>,
)
    requires
        unique_keys(acc),
    ensures
        unique_keys(combine_entries(acc, next)),
    decreases next.len(),
{
    if next.len() > 0 {
        lemma_insert_unique(acc, next[0].0, next[0].1);
        lemma_combine_entries_unique(insert_entry(acc, next[0].0, next[0].1), next.skip(1));
    }
}

/// One merge step keeps the top level of the accumulator free of
/// duplicate keys.
proof fn lemma_combine_top_unique(acc: SpecValue, v: SpecValue)
    requires
        top_unique(acc),
        top_unique(v),
    ensures
        top_unique(spec_combine(acc, v)),
{
    match acc {
        SpecValue::Hash(h) => match v {
            SpecValue::Hash(n) => lemma_combine_entries_unique(h, n),
            _ => {},
        },
        _ => {},
    }
}

/// Folding entries whose keys are all fresh appends them in order.
proof fn lemma_combine_entries_fresh(
    acc: Seq<(SpecValue, SpecValue)>,
    next: Seq<(SpecValue, SpecValue)>,
)
    requires
        unique_keys(next),
        forall|i: int, j: int| 0 <= i < acc.len() && 0 <= j < next.len() ==> acc[i].0
            != next[j].0,
    ensures
        combine_entries(acc, next) == acc + next,
    decreases next.len(),
{
    if next.len() == 0 {
        assert(acc + next =~= acc);
    } else {
        assert(forall|i: int| 0 <= i < acc.len() ==> acc[i].0 != next[0].0);
        lemma_insert_missing(acc, next[0].0, next[0].1);
        let acc2 = acc.push(next[0]);
        assert(unique_keys(next.skip(1))) by {
            assert(forall|i: int, j: int| 0 <= i < j < next.skip(1).len() ==> next.skip(1)[i]
                == next[i + 1] && next.skip(1)[j] == next[j + 1]);
        }
        assert(forall|i: int, j: int| 0 <= i < acc2.len() && 0 <= j < next.skip(1).len()
            ==> acc2[i].0 != next.skip(1)[j].0) by {
            assert(forall|j: int| 0 <= j < next.skip(1).len() ==> next.skip(1)[j] == next[j + 1]);
        }
        lemma_combine_entries_fresh(acc2, next.skip(1));
        assert(acc2 + next.skip(1) =~= acc + next);
    }
}

/// Merging anything into the empty mapping gives it back unchanged,
/// provided its own top level has no duplicate keys.
proof fn lemma_combine_empty_id(x: SpecValue)
    requires
        top_unique(x),
    ensures
        spec_combine(SpecValue::Hash(Seq::empty()), x) == x,
{
    match x {
        SpecValue::Hash(n) => {
            lemma_combine_entries_fresh(Seq::empty(), n);
            assert(Seq::<(SpecValue, SpecValue)>::empty() + n =~= n);
        },
        _ => {},
    }
}

/// Deep merge is associative under left folding: merging the list
/// `[a, b, c]` equals merging `[merge([a, b]), c]`, for well-formed
/// documents (a parsed document never holds a mapping with duplicate
/// keys).
pub proof fn lemma_merge_left_fold(a: SpecValue, b: SpecValue, c: SpecValue)
    requires
        wf_value(a),
        wf_value(b),
        wf_value(c),
    ensures
        spec_merge(seq![a, b, c]) == spec_merge(seq![spec_merge(seq![a, b]), c]),
{
    reveal_with_fuel(merge_from, 4);
    let e = SpecValue::Hash(Seq::<(SpecValue, SpecValue)>::empty());
    assert(seq![a, b, c].skip(1) =~= seq![b, c]);
    assert(seq![b, c].skip(1) =~= seq![c]);
    assert(seq![c].skip(1) =~= Seq::<SpecValue>::empty());
    assert(seq![a, b].skip(1) =~= seq![b]);
    assert(seq![b].skip(1) =~= Seq::<SpecValue>::empty());
    let x = spec_combine(spec_combine(e, a), b);
    assert(spec_merge(seq![a, b, c]) == spec_combine(x, c));
    assert(spec_merge(seq![a, b]) == x);
    assert(top_unique(e));
    assert(top_unique(a));
    assert(top_unique(b));
    lemma_combine_top_unique(e, a);
    lemma_combine_top_unique(spec_combine(e, a), b);
    lemma_combine_empty_id(x);
    assert(seq![x, c].skip(1) =~= seq![c]);
    assert(spec_merge(seq![x, c]) == spec_combine(spec_combine(e, x), c));
}

/// Fold an ordered list of documents into one, starting from an empty
/// mapping. Later documents override or augment earlier ones: lists
/// append, objects merge key by key, everything else is replaced.
pub fn merge(yamls: Vec<Value>) -> (r: Value)
    ensures
        view_value(r) == spec_merge(view_values(yamls@)),
{
    let ghost docs: Seq<SpecValue> = view_values(yamls@);
    proof {
        lemma_view_values(yamls@);
        assert(docs.skip(0) =~= docs);
    }
    let mut ret: Value = Value::Hash(Vec::new());
    proof {
        lemma_view_entries(Seq::<(Value, Value)>::empty());
        assert(view_entries(Seq::<(Value, Value)>::empty())
            =~= Seq::<(SpecValue, SpecValue)>::empty());
    }
    let n: usize = yamls.len();
    let mut c: usize = 0;
    while c < n
        invariant
            n == yamls@.len(),
            c <= n,
            docs == view_values(yamls@),
            docs.len() == n,
            forall|i: int| 0 <= i < n ==> docs[i] == view_value(yamls@[i]),
            merge_from(view_value(ret), docs.skip(c as int)) == spec_merge(docs),
        decreases n - c,
    {
        proof {
            assert(docs.skip(c as int)[0] == docs[c as int]);
            assert(docs.skip(c as int).skip(1) =~= docs.skip(c + 1));
        }
        ret = combine(ret, &yamls[c]);
        c += 1;
    }
    proof {
        assert(docs.skip(n as int) =~= Seq::<SpecValue>::empty());
    }
    ret
}

} // verus!
