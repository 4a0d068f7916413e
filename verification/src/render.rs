//! The back half of the engine: extracting the render configuration
//! from the merged document, and walking the node tree against it to
//! produce the output text.

use vstd::prelude::*;
use vstd::string::StringExecFns;
use crate::errors::Error;
use crate::parse::{
    Node, SpecNode, SpecPathElem, YamlPath, YamlPathElem, view_elem, view_nodes, view_path,
};
use crate::text::{dec_int, i64_string, push_char, str_chars};
use crate::value::{SpecValue, Value, has_key, view_entries, view_value};
use crate::yaml::{
    cat_paths, hash_lookup, path_norm, set_entry, set_key, spec_bool, spec_get, spec_string,
};

verus! {

/// What can go wrong while walking the tree: a value with no text was
/// substituted (recoverable by `ignore`), a mapping key met during
/// iteration is not a string, or a key reference points outside the
/// context or at a non-descent element.
pub enum RenderErr {
    Stringify,
    BadKey,
    KeyRef,
}

/// Which error type each render failure surfaces as.
pub open spec fn err_matches(re: RenderErr, e: Error) -> bool {
    match re {
        RenderErr::KeyRef => e is Lookup,
        _ => e is Type,
    }
}

/// The text of a key reference: the context element at reverse index
/// `n` (0 is the most recent) must exist and be a descent; its member
/// name or element index is the text.
pub open spec fn spec_keyref(ctx: Seq<SpecPathElem>, n: i64) -> Result<Seq<char>, ()> {
    if 0 <= n < ctx.len() {
        match ctx[ctx.len() - 1 - n] {
            SpecPathElem::DownObject(k) => Ok(k),
            SpecPathElem::DownArray(m) => Ok(dec_int(m as int)),
            _ => Err(()),
        }
    } else {
        Err(())
    }
}

/// Render a node sequence: the concatenation of each node's text, in
/// order; the first failure aborts the whole render.
pub open spec fn spec_render(
    values: SpecValue,
    tree: Seq<SpecNode>,
    ctx: Seq<SpecPathElem>,
    ignore: bool,
) -> Result<Seq<char>, RenderErr>
    decreases tree, 0nat,
{
    if tree.len() == 0 {
        Ok(Seq::empty())
    } else {
        match spec_render_node(values, tree[0], ctx, ignore) {
            Ok(head) => match spec_render(values, tree.skip(1), ctx, ignore) {
                Ok(rest) => Ok(head + rest),
                Err(e) => Err(e),
            },
            Err(e) => Err(e),
        }
    }
}

/// Render one node. A literal is itself; a substitution fetches the
/// value at the joined path and stringifies it; a key reference reads
/// the context; a section joins its path, tests the target's
/// truthiness, and iterates, descends once, or renders nothing.
pub open spec fn spec_render_node(
    values: SpecValue,
    node: SpecNode,
    ctx: Seq<SpecPathElem>,
    ignore: bool,
) -> Result<Seq<char>, RenderErr>
    decreases node, 0nat,
{
    match node {
        SpecNode::Literal(s) => Ok(s),
        SpecNode::DirectSub(p) => match spec_string(
            spec_get(values, path_norm(ctx + p)),
            ignore,
        ) {
            Ok(t) => Ok(t),
            Err(()) => Err(RenderErr::Stringify),
        },
        SpecNode::KeySub(n) => match spec_keyref(ctx, n) {
            Ok(t) => Ok(t),
            Err(()) => Err(RenderErr::KeyRef),
        },
        SpecNode::CondSub(p, direct, children) => {
            let abs = path_norm(ctx + p);
            let target = spec_get(values, abs);
            if spec_bool(target) && direct {
                match target {
                    SpecValue::Hash(entries) => spec_render_hash(
                        values,
                        children,
                        abs,
                        entries,
                        ignore,
                    ),
                    SpecValue::Array(items) => spec_render_array(
                        values,
                        children,
                        abs,
                        0,
                        items.len() as int,
                        ignore,
                    ),
                    _ => spec_render(values, children, abs, ignore),
                }
            } else if !spec_bool(target) && !direct {
                spec_render(values, children, abs, ignore)
            } else {
                Ok(Seq::empty())
            }
        },
    }
}

/// Iterate a section over a mapping: for each entry, in order, the
/// key must be a string (this error is never suppressed); the children
/// render once per key with the context extended by that key.
pub open spec fn spec_render_hash(
    values: SpecValue,
    children: Seq<SpecNode>,
    abs: Seq<SpecPathElem>,
    entries: Seq<(SpecValue, SpecValue)>,
    ignore: bool,
) -> Result<Seq<char>, RenderErr>
    decreases children, entries.len() + 1,
{
    if entries.len() == 0 {
        Ok(Seq::empty())
    } else {
        match entries[0].0 {
            SpecValue::Str(k) => match spec_render(
                values,
                children,
                abs.push(SpecPathElem::DownObject(k)),
                ignore,
            ) {
                Ok(head) => match spec_render_hash(values, children, abs, entries.skip(1), ignore) {
                    Ok(rest) => Ok(head + rest),
                    Err(e) => Err(e),
                },
                Err(e) => Err(e),
            },
            _ => Err(RenderErr::BadKey),
        }
    }
}

/// Iterate a section over a sequence: the children render once per
/// index from `idx` up to `len`, with the context extended by that
/// index.
pub open spec fn spec_render_array(
    values: SpecValue,
    children: Seq<SpecNode>,
    abs: Seq<SpecPathElem>,
    idx: int,
    len: int,
    ignore: bool,
) -> Result<Seq<char>, RenderErr>
    decreases children, (if idx < len {
        len - idx + 1
    } else {
        1
    }),
{
    if idx >= len {
        Ok(Seq::empty())
    } else {
        match spec_render(
            values,
            children,
            abs.push(SpecPathElem::DownArray(idx as i64)),
            ignore,
        ) {
            Ok(head) => match spec_render_array(values, children, abs, idx + 1, len, ignore) {
                Ok(rest) => Ok(head + rest),
                Err(e) => Err(e),
            },
            Err(e) => Err(e),
        }
    }
}

/// Join a context and a relative path into one absolute path.
fn join2(a: &YamlPath, b: &YamlPath) -> (r: YamlPath)
    ensures
        view_path(r@) == path_norm(view_path(a@) + view_path(b@)),
{
    let mut refs: Vec<&YamlPath> = Vec::new();
    refs.push(a);
    refs.push(b);
    let r = crate::yaml::pathjoin(refs.as_slice());
    proof {
        reveal_with_fuel(crate::yaml::cat_paths, 3);
        let vp = crate::yaml::view_paths(refs@);
        assert(vp.len() == 2);
        assert(vp[0] == view_path(a@));
        assert(vp[1] == view_path(b@));
        assert(vp.drop_last() =~= seq![view_path(a@)]);
        assert(seq![view_path(a@)].drop_last() =~= Seq::<Seq<SpecPathElem>>::empty());
        assert(cat_paths(vp) == (Seq::<SpecPathElem>::empty() + view_path(a@)) + view_path(b@));
        assert(Seq::<SpecPathElem>::empty() + view_path(a@) =~= view_path(a@));
    }
    r
}

/// Walk the node tree against the document and the current context,
/// concatenating each node's text; the first failure aborts the whole
/// render with no partial output.
pub fn render(values: &Value, tree: &[Node], context: &YamlPath, ignore: bool) -> (r: Result<
    String,
    Error,
>)
    ensures
        match r {
            Ok(out) => spec_render(
                view_value(*values),
                view_nodes(tree@),
                view_path(context@),
                ignore,
            ) == Ok::<Seq<char>, RenderErr>(out@),
            Err(e) => match spec_render(
                view_value(*values),
                view_nodes(tree@),
                view_path(context@),
                ignore,
            ) {
                Err(re) => err_matches(re, e),
                Ok(_) => false,
            },
        },
    decreases tree@, 0nat,
{
    let ghost vm: SpecValue = view_value(*values);
    let ghost tm: Seq<SpecNode> = view_nodes(tree@);
    let ghost cm: Seq<SpecPathElem> = view_path(context@);
    proof {
        crate::parse::lemma_view_nodes(tree@);
        assert(tm.skip(0) =~= tm);
    }
    let mut out = String::new();
    let n: usize = tree.len();
    let mut i: usize = 0;
    while i < n
        invariant
            n == tree@.len(),
            i <= n,
            vm == view_value(*values),
            tm == view_nodes(tree@),
            cm == view_path(context@),
            tm.len() == n,
            forall|j: int| 0 <= j < n ==> tm[j] == crate::parse::view_node(tree@[j]),
            match spec_render(vm, tm.skip(i as int), cm, ignore) {
                Ok(rest) => spec_render(vm, tm, cm, ignore) == Ok::<Seq<char>, RenderErr>(
                    out@ + rest,
                ),
                Err(e) => spec_render(vm, tm, cm, ignore) == Err::<Seq<char>, RenderErr>(e),
            },
        decreases n - i,
    {
        let ghost rest: Seq<SpecNode> = tm.skip(i as int);
        let ghost nm: SpecNode = tm[i as int];
        proof {
            assert(rest[0] == nm);
            assert(rest.skip(1) =~= tm.skip(i + 1));
        }
        let ghost out0: Seq<char> = out@;
        match &tree[i] {
            Node::Literal(s) => {
                out.append(s.as_str());
                proof {
                    if let Ok(r2) = spec_render(vm, tm.skip(i + 1), cm, ignore) {
                        assert((out0 + s@) + r2 =~= out0 + (s@ + r2));
                    }
                }
            },
            Node::DirectSub(p) => {
                let abs = join2(context, p);
                let v = crate::yaml::get(values, &abs);
                match crate::yaml::string(v, ignore) {
                    Ok(s) => {
                        out.append(s.as_str());
                        proof {
                            if let Ok(r2) = spec_render(vm, tm.skip(i + 1), cm, ignore) {
                                assert((out0 + s@) + r2 =~= out0 + (s@ + r2));
                            }
                        }
                    },
                    Err(e) => {
                        proof {
                            assert(view_value(*v) == spec_get(vm, path_norm(cm + view_path(p@))));
                            assert(spec_render_node(vm, nm, cm, ignore) == Err::<
                                Seq<char>,
                                RenderErr,
                            >(RenderErr::Stringify));
                        }
                        return Err(e);
                    },
                }
            },
            Node::KeySub(kn) => {
                if 0 <= *kn && (*kn as u64) < (context.len() as u64) {
                    let idx: usize = context.len() - 1 - (*kn as usize);
                    match &context[idx] {
                        YamlPathElem::DownObject(k) => {
                            out.append(k.as_str());
                            proof {
                                if let Ok(r2) = spec_render(vm, tm.skip(i + 1), cm, ignore) {
                                    assert((out0 + k@) + r2 =~= out0 + (k@ + r2));
                                }
                            }
                        },
                        YamlPathElem::DownArray(m) => {
                            let s = i64_string(*m);
                            out.append(s.as_str());
                            proof {
                                if let Ok(r2) = spec_render(vm, tm.skip(i + 1), cm, ignore) {
                                    assert((out0 + s@) + r2 =~= out0 + (s@ + r2));
                                }
                            }
                        },
                        _ => {
                            proof {
                                assert(cm.len() == context@.len());
                                assert(cm[cm.len() - 1 - (*kn as int)] == view_elem(
                                    context@[idx as int],
                                ));
                                assert(spec_keyref(cm, *kn) is Err);
                                assert(spec_render_node(vm, nm, cm, ignore) == Err::<
                                    Seq<char>,
                                    RenderErr,
                                >(RenderErr::KeyRef));
                            }
                            return Err(
                                Error::Lookup(
                                    String::from_str(
                                        "the context element here is not a descent",
                                    ),
                                ),
                            );
                        },
                    }
                } else {
                    proof {
                        assert(cm.len() == context@.len());
                        assert(spec_keyref(cm, *kn) is Err);
                        assert(spec_render_node(vm, nm, cm, ignore) == Err::<
                            Seq<char>,
                            RenderErr,
                        >(RenderErr::KeyRef));
                    }
                    return Err(
                        Error::Lookup(String::from_str("no context element at this depth")),
                    );
                }
            },
            Node::CondSub(p, direct, children) => {
                proof {
                    assert(decreases_to!(tm => tm[i as int]));
                    assert((tm[i as int])->CondSub_2 == view_nodes(children@));
                }
                let abs = join2(context, p);
                let truthy = crate::yaml::bool(crate::yaml::get(values, &abs));
                let sub: Result<String, Error>;
                if truthy && *direct {
                    let target = crate::yaml::get(values, &abs);
                    match target {
                        Value::Hash(entries) => {
                            sub = render_hash_iter(values, children, &abs, entries, ignore);
                            proof {
                                assert(view_value(*target) == SpecValue::Hash(
                                    view_entries(entries@),
                                ));
                                assert(spec_render_node(vm, nm, cm, ignore) == spec_render_hash(
                                    vm,
                                    view_nodes(children@),
                                    view_path(abs@),
                                    view_entries(entries@),
                                    ignore,
                                ));
                            }
                        },
                        Value::Array(items) => {
                            sub = render_array_iter(values, children, &abs, items.len(), ignore);
                            proof {
                                crate::value::lemma_view_values(items@);
                                assert(view_value(*target) == SpecValue::Array(
                                    crate::value::view_values(items@),
                                ));
                                assert(spec_render_node(vm, nm, cm, ignore) == spec_render_array(
                                    vm,
                                    view_nodes(children@),
                                    view_path(abs@),
                                    0,
                                    items@.len() as int,
                                    ignore,
                                ));
                            }
                        },
                        _ => {
                            sub = render(values, children.as_slice(), &abs, ignore);
                            proof {
                                assert(spec_render_node(vm, nm, cm, ignore) == spec_render(
                                    vm,
                                    view_nodes(children@),
                                    view_path(abs@),
                                    ignore,
                                ));
                            }
                        },
                    }
                } else if !truthy && !*direct {
                    sub = render(values, children.as_slice(), &abs, ignore);
                    proof {
                        assert(spec_render_node(vm, nm, cm, ignore) == spec_render(
                            vm,
                            view_nodes(children@),
                            view_path(abs@),
                            ignore,
                        ));
                    }
                } else {
                    sub = Ok(String::new());
                    proof {
                        assert(spec_render_node(vm, nm, cm, ignore) == Ok::<
                            Seq<char>,
                            RenderErr,
                        >(Seq::empty()));
                    }
                }
                match sub {
                    Ok(s) => {
                        out.append(s.as_str());
                        proof {
                            if let Ok(r2) = spec_render(vm, tm.skip(i + 1), cm, ignore) {
                                assert((out0 + s@) + r2 =~= out0 + (s@ + r2));
                            }
                        }
                    },
                    Err(e) => {
                        return Err(e);
                    },
                }
            },
        }
        i += 1;
    }
    proof {
        assert(tm.skip(n as int) =~= Seq::<SpecNode>::empty());
        assert(out@ + Seq::<char>::empty() =~= out@);
    }
    Ok(out)
}

/// Render a section's children once per mapping entry, in entry
/// order, with the context extended by each (string) key.
fn render_hash_iter(
    values: &Value,
    children: &Vec<Node>,
    abs: &YamlPath,
    entries: &Vec<(Value, Value)>,
    ignore: bool,
) -> (r: Result<String, Error>)
    ensures
        match r {
            Ok(out) => spec_render_hash(
                view_value(*values),
                view_nodes(children@),
                view_path(abs@),
                view_entries(entries@),
                ignore,
            ) == Ok::<Seq<char>, RenderErr>(out@),
            Err(e) => match spec_render_hash(
                view_value(*values),
                view_nodes(children@),
                view_path(abs@),
                view_entries(entries@),
                ignore,
            ) {
                Err(re) => err_matches(re, e),
                Ok(_) => false,
            },
        },
    decreases children@, 1nat,
{
    let ghost vm: SpecValue = view_value(*values);
    let ghost km: Seq<SpecNode> = view_nodes(children@);
    let ghost am: Seq<SpecPathElem> = view_path(abs@);
    let ghost em: Seq<(SpecValue, SpecValue)> = view_entries(entries@);
    proof {
        crate::value::lemma_view_entries(entries@);
        assert(em.skip(0) =~= em);
    }
    let mut ctx2 = crate::parse::dup_path(abs);
    let mut out = String::new();
    let n: usize = entries.len();
    let mut j: usize = 0;
    while j < n
        invariant
            n == entries@.len(),
            j <= n,
            vm == view_value(*values),
            km == view_nodes(children@),
            am == view_path(abs@),
            em == view_entries(entries@),
            em.len() == n,
            forall|t: int| 0 <= t < n ==> em[t] == (
                view_value(entries@[t].0),
                view_value(entries@[t].1),
            ),
            view_path(ctx2@) == am,
            match spec_render_hash(vm, km, am, em.skip(j as int), ignore) {
                Ok(rest) => spec_render_hash(vm, km, am, em, ignore) == Ok::<Seq<char>, RenderErr>(
                    out@ + rest,
                ),
                Err(e) => spec_render_hash(vm, km, am, em, ignore) == Err::<Seq<char>, RenderErr>(
                    e,
                ),
            },
        decreases n - j,
    {
        proof {
            assert(em.skip(j as int)[0] == em[j as int]);
            assert(em.skip(j as int).skip(1) =~= em.skip(j + 1));
        }
        let ghost out0: Seq<char> = out@;
        match &entries[j].0 {
            Value::Str(k) => {
                let ghost before: Seq<crate::parse::YamlPathElem> = ctx2@;
                ctx2.push(crate::parse::YamlPathElem::DownObject(k.clone()));
                proof {
                    assert(view_path(ctx2@) =~= am.push(SpecPathElem::DownObject(k@)));
                }
                let sub = render(values, children.as_slice(), &ctx2, ignore);
                let _ = ctx2.pop();
                proof {
                    assert(ctx2@ =~= before);
                }
                match sub {
                    Ok(s) => {
                        out.append(s.as_str());
                        proof {
                            if let Ok(r2) = spec_render_hash(vm, km, am, em.skip(j + 1), ignore) {
                                assert((out0 + s@) + r2 =~= out0 + (s@ + r2));
                            }
                        }
                    },
                    Err(e) => {
                        return Err(e);
                    },
                }
            },
            _ => {
                return Err(
                    Error::Type(
                        String::from_str(
                            "every mapping key iterated by a section must be a string",
                        ),
                    ),
                );
            },
        }
        j += 1;
    }
    proof {
        assert(em.skip(n as int) =~= Seq::<(SpecValue, SpecValue)>::empty());
        assert(out@ + Seq::<char>::empty() =~= out@);
    }
    Ok(out)
}

/// Render a section's children once per sequence index, in order,
/// with the context extended by each index.
fn render_array_iter(
    values: &Value,
    children: &Vec<Node>,
    abs: &YamlPath,
    len: usize,
    ignore: bool,
) -> (r: Result<String, Error>)
    ensures
        match r {
            Ok(out) => spec_render_array(
                view_value(*values),
                view_nodes(children@),
                view_path(abs@),
                0,
                len as int,
                ignore,
            ) == Ok::<Seq<char>, RenderErr>(out@),
            Err(e) => match spec_render_array(
                view_value(*values),
                view_nodes(children@),
                view_path(abs@),
                0,
                len as int,
                ignore,
            ) {
                Err(re) => err_matches(re, e),
                Ok(_) => false,
            },
        },
    decreases children@, 1nat,
{
    let ghost vm: SpecValue = view_value(*values);
    let ghost km: Seq<SpecNode> = view_nodes(children@);
    let ghost am: Seq<SpecPathElem> = view_path(abs@);
    let mut ctx2 = crate::parse::dup_path(abs);
    let mut out = String::new();
    let mut j: usize = 0;
    while j < len
        invariant
            j <= len,
            vm == view_value(*values),
            km == view_nodes(children@),
            am == view_path(abs@),
            view_path(ctx2@) == am,
            match spec_render_array(vm, km, am, j as int, len as int, ignore) {
                Ok(rest) => spec_render_array(vm, km, am, 0, len as int, ignore) == Ok::<
                    Seq<char>,
                    RenderErr,
                >(out@ + rest),
                Err(e) => spec_render_array(vm, km, am, 0, len as int, ignore) == Err::<
                    Seq<char>,
                    RenderErr,
                >(e),
            },
        decreases len - j,
    {
        let ghost out0: Seq<char> = out@;
        let ghost before: Seq<crate::parse::YamlPathElem> = ctx2@;
        let idx: i64 = #[verifier::truncate] (j as i64);
        ctx2.push(crate::parse::YamlPathElem::DownArray(idx));
        proof {
            assert(view_path(ctx2@) =~= am.push(SpecPathElem::DownArray(idx)));
        }
        let sub = render(values, children.as_slice(), &ctx2, ignore);
        let _ = ctx2.pop();
        proof {
            assert(ctx2@ =~= before);
        }
        match sub {
            Ok(s) => {
                out.append(s.as_str());
                proof {
                    if let Ok(r2) = spec_render_array(vm, km, am, j + 1, len as int, ignore) {
                        assert((out0 + s@) + r2 =~= out0 + (s@ + r2));
                    }
                }
            },
            Err(e) => {
                return Err(e);
            },
        }
        j += 1;
    }
    Ok(out)
}

/// A bracket character flipped to its counterpart; anything else is
/// unchanged.
pub open spec fn flip_char(c: char) -> char {
    if c == '(' {
        ')'
    } else if c == ')' {
        '('
    } else if c == '[' {
        ']'
    } else if c == ']' {
        '['
    } else if c == '{' {
        '}'
    } else if c == '}' {
        '{'
    } else if c == '<' {
        '>'
    } else if c == '>' {
        '<'
    } else {
        c
    }
}

/// The mirror of a delimiter: the characters reversed, each bracket
/// flipped to its counterpart.
pub open spec fn mirror(s: Seq<char>) -> Seq<char> {
    Seq::new(s.len(), |i: int| flip_char(s[s.len() - 1 - i]))
}

fn exec_flip_char(c: char) -> (r: char)
    ensures
        r == flip_char(c),
{
    if c == '(' {
        ')'
    } else if c == ')' {
        '('
    } else if c == '[' {
        ']'
    } else if c == ']' {
        '['
    } else if c == '{' {
        '}'
    } else if c == '}' {
        '{'
    } else if c == '<' {
        '>'
    } else if c == '>' {
        '<'
    } else {
        c
    }
}

/// The closing delimiter that matches an opening one: the text
/// reversed character by character, with brackets flipped.
pub fn matching_delim(open: &str) -> (r: String)
    ensures
        r@ == mirror(open@),
{
    let cs = str_chars(open);
    let n: usize = cs.len();
    let mut out = String::new();
    let mut i: usize = 0;
    while i < n
        invariant
            n == cs@.len(),
            cs@ == open@,
            i <= n,
            out@.len() == i,
            forall|j: int| 0 <= j < i ==> out@[j] == flip_char(open@[n - 1 - j]),
        decreases n - i,
    {
        push_char(&mut out, exec_flip_char(cs[n - 1 - i]));
        i += 1;
    }
    proof {
        assert(out@ =~= mirror(open@));
    }
    out
}

/// The render configuration drawn from the reserved `_config` key of
/// the merged document: the two tag delimiters and the error-ignore
/// flag.
#[derive(Debug, PartialEq)]
pub struct ParseArgs {
    pub open: String,
    pub close: String,
    pub ignore: bool,
}

/// Fetch a string field out of a configuration entry list, or install
/// the given default: a present entry must hold a string (anything
/// else is an error), an absent one is appended with the default.
pub open spec fn fetch_str_field(
    c: Seq<(SpecValue, SpecValue)>,
    name: Seq<char>,
    dflt: Seq<char>,
) -> Result<(Seq<char>, Seq<(SpecValue, SpecValue)>), ()> {
    if !has_key(c, SpecValue::Str(name)) {
        Ok((dflt, c.push((SpecValue::Str(name), SpecValue::Str(dflt)))))
    } else {
        match hash_lookup(c, SpecValue::Str(name)) {
            SpecValue::Str(s) => Ok((s, c)),
            _ => Err(()),
        }
    }
}

/// Fetch a boolean field out of a configuration entry list, or install
/// the given default, as `fetch_str_field` does for strings.
pub open spec fn fetch_bool_field(
    c: Seq<(SpecValue, SpecValue)>,
    name: Seq<char>,
    dflt: bool,
) -> Result<(bool, Seq<(SpecValue, SpecValue)>), ()> {
    if !has_key(c, SpecValue::Str(name)) {
        Ok((dflt, c.push((SpecValue::Str(name), SpecValue::Boolean(dflt)))))
    } else {
        match hash_lookup(c, SpecValue::Str(name)) {
            SpecValue::Boolean(b) => Ok((b, c)),
            _ => Err(()),
        }
    }
}

/// The configuration a document yields, and the document normalized
/// with every defaulted field materialized: the top level must be a
/// mapping, the reserved key (if present) must hold a mapping, `open`
/// and `close` must be strings (defaults: a double brace, and the
/// mirror of `open`), `ignore` must be a boolean (default: false).
pub open spec fn spec_from_yaml(v: SpecValue) -> Result<
    ((Seq<char>, Seq<char>, bool), SpecValue),
    (),
> {
    match v {
        SpecValue::Hash(top) => {
            let c0 = if has_key(top, SpecValue::Str("_config"@)) {
                hash_lookup(top, SpecValue::Str("_config"@))
            } else {
                SpecValue::Hash(Seq::empty())
            };
            match c0 {
                SpecValue::Hash(c) => match fetch_str_field(c, "open"@, "{{"@) {
                    Ok((o, c1)) => match fetch_str_field(c1, "close"@, mirror(o)) {
                        Ok((cl, c2)) => match fetch_bool_field(c2, "ignore"@, false) {
                            Ok((ig, c3)) => Ok(
                                (
                                    (o, cl, ig),
                                    SpecValue::Hash(
                                        set_entry(
                                            top,
                                            SpecValue::Str("_config"@),
                                            SpecValue::Hash(c3),
                                        ),
                                    ),
                                ),
                            ),
                            Err(()) => Err(()),
                        },
                        Err(()) => Err(()),
                    },
                    Err(()) => Err(()),
                },
                _ => Err(()),
            }
        },
        _ => Err(()),
    }
}

/// Fetch or default one string field of the owned configuration
/// entry list.
fn take_str_field(c: Vec<(Value, Value)>, name: &str, dflt: String) -> (r: Result<
    (String, Vec<(Value, Value)>),
    Error,
>)
    ensures
        match r {
            Ok(p) => fetch_str_field(view_entries(c@), name@, dflt@) == Ok::<
                (Seq<char>, Seq<(SpecValue, SpecValue)>),
                (),
            >((p.0@, view_entries(p.1@))),
            Err(e) => fetch_str_field(view_entries(c@), name@, dflt@) is Err && e is Config,
        },
{
    let ghost cm: Seq<(SpecValue, SpecValue)> = view_entries(c@);
    proof {
        crate::value::lemma_view_entries(c@);
    }
    let key = Value::Str(String::from_str(name));
    match crate::yaml::find_key(&c, &key) {
        Some(j) => {
            proof {
                assert(cm[j as int].0 == SpecValue::Str(name@));
                assert(has_key(cm, SpecValue::Str(name@)));
                crate::yaml::lemma_lookup_at(cm, SpecValue::Str(name@), j as int);
            }
            match &c[j].1 {
                Value::Str(s) => {
                    let out = s.clone();
                    Ok((out, c))
                },
                _ => Err(Error::Config(String::from_str("this field must be a string"))),
            }
        },
        None => {
            proof {
                if has_key(cm, SpecValue::Str(name@)) {
                    let i = choose|i: int| 0 <= i < cm.len() && cm[i].0 == SpecValue::Str(name@);
                    assert(view_value(c@[i].0) == SpecValue::Str(name@));
                }
            }
            let mut c = c;
            c.push((key, Value::Str(dflt.clone())));
            proof {
                crate::value::lemma_view_entries(c@);
                assert(view_entries(c@) =~= cm.push(
                    (SpecValue::Str(name@), SpecValue::Str(dflt@)),
                ));
            }
            Ok((dflt, c))
        },
    }
}

/// Fetch or default one boolean field of the owned configuration
/// entry list.
fn take_bool_field(c: Vec<(Value, Value)>, name: &str, dflt: bool) -> (r: Result<
    (bool, Vec<(Value, Value)>),
    Error,
>)
    ensures
        match r {
            Ok(p) => fetch_bool_field(view_entries(c@), name@, dflt) == Ok::<
                (bool, Seq<(SpecValue, SpecValue)>),
                (),
            >((p.0, view_entries(p.1@))),
            Err(e) => fetch_bool_field(view_entries(c@), name@, dflt) is Err && e is Config,
        },
{
    let ghost cm: Seq<(SpecValue, SpecValue)> = view_entries(c@);
    proof {
        crate::value::lemma_view_entries(c@);
    }
    let key = Value::Str(String::from_str(name));
    match crate::yaml::find_key(&c, &key) {
        Some(j) => {
            proof {
                assert(cm[j as int].0 == SpecValue::Str(name@));
                assert(has_key(cm, SpecValue::Str(name@)));
                crate::yaml::lemma_lookup_at(cm, SpecValue::Str(name@), j as int);
            }
            match &c[j].1 {
                Value::Boolean(b) => Ok((*b, c)),
                _ => Err(Error::Config(String::from_str("this field must be a boolean"))),
            }
        },
        None => {
            proof {
                if has_key(cm, SpecValue::Str(name@)) {
                    let i = choose|i: int| 0 <= i < cm.len() && cm[i].0 == SpecValue::Str(name@);
                    assert(view_value(c@[i].0) == SpecValue::Str(name@));
                }
            }
            let mut c = c;
            c.push((key, Value::Boolean(dflt)));
            proof {
                crate::value::lemma_view_entries(c@);
                assert(view_entries(c@) =~= cm.push(
                    (SpecValue::Str(name@), SpecValue::Boolean(dflt)),
                ));
            }
            Ok((dflt, c))
        },
    }
}

/// The read-only part of config extraction: the arguments and the
/// normalized top-level entry list a mapping document yields.
fn extract_args(top: &Vec<(Value, Value)>) -> (r: Result<(ParseArgs, Vec<(Value, Value)>), Error>)
    ensures
        match r {
            Ok(p) => spec_from_yaml(SpecValue::Hash(view_entries(top@))) == Ok::<
                ((Seq<char>, Seq<char>, bool), SpecValue),
                (),
            >(((p.0.open@, p.0.close@, p.0.ignore), SpecValue::Hash(view_entries(p.1@)))),
            Err(e) => spec_from_yaml(SpecValue::Hash(view_entries(top@))) is Err && e is Config,
        },
{
    let ghost topm: Seq<(SpecValue, SpecValue)> = view_entries(top@);
    proof {
        crate::value::lemma_view_entries(top@);
    }
    let ck = Value::Str(String::from_str("_config"));
    let centries: Vec<(Value, Value)> = match crate::yaml::find_key(top, &ck) {
        Some(j) => {
            proof {
                assert(topm[j as int].0 == SpecValue::Str("_config"@));
                assert(has_key(topm, SpecValue::Str("_config"@)));
                crate::yaml::lemma_lookup_at(topm, SpecValue::Str("_config"@), j as int);
            }
            match &top[j].1 {
                Value::Hash(ce) => crate::value::entries_dup(ce),
                _ => {
                    return Err(
                        Error::Config(String::from_str("the reserved key must hold a mapping")),
                    );
                },
            }
        },
        None => {
            proof {
                if has_key(topm, SpecValue::Str("_config"@)) {
                    let i = choose|i: int| 0 <= i < topm.len() && topm[i].0 == SpecValue::Str(
                        "_config"@,
                    );
                    assert(view_value(top@[i].0) == SpecValue::Str("_config"@));
                }
                assert(view_entries(Seq::<(Value, Value)>::empty())
                    =~= Seq::<(SpecValue, SpecValue)>::empty());
            }
            Vec::new()
        },
    };
    let (o, c1) = match take_str_field(centries, "open", String::from_str("{{")) {
        Ok(p) => p,
        Err(e) => {
            return Err(e);
        },
    };
    let (cl, c2) = match take_str_field(c1, "close", matching_delim(o.as_str())) {
        Ok(p) => p,
        Err(e) => {
            return Err(e);
        },
    };
    let (ig, c3) = match take_bool_field(c2, "ignore", false) {
        Ok(p) => p,
        Err(e) => {
            return Err(e);
        },
    };
    let newtop = set_key(crate::value::entries_dup(top), ck, Value::Hash(c3));
    Ok((ParseArgs { open: o, close: cl, ignore: ig }, newtop))
}

impl ParseArgs {
    /// Read the render configuration out of a merged document, filling
    /// every defaulted field into the document itself, so that later
    /// rendering sees the values actually used. On an error the
    /// document is left untouched.
    pub fn from_yaml(yaml: &mut Value) -> (r: Result<ParseArgs, Error>)
        ensures
            match r {
                Ok(args) => spec_from_yaml(view_value(*old(yaml))) == Ok::<
                    ((Seq<char>, Seq<char>, bool), SpecValue),
                    (),
                >(((args.open@, args.close@, args.ignore), view_value(*final(yaml)))),
                Err(e) => spec_from_yaml(view_value(*old(yaml))) is Err && e is Config
                    && *final(yaml) == *old(yaml),
            },
    {
        let prep: Result<(ParseArgs, Vec<(Value, Value)>), Error> = match &*yaml {
            Value::Hash(top) => extract_args(top),
            _ => Err(Error::Config(String::from_str("the top level must be a mapping"))),
        };
        match prep {
            Ok((args, newtop)) => {
                *yaml = Value::Hash(newtop);
                Ok(args)
            },
            Err(e) => Err(e),
        }
    }
}

} // verus!
