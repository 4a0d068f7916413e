//! The template front end: path elements, the tokenizer for the tag
//! grammar, the tree builder, and the two-phase input parser.

use vstd::prelude::*;
use vstd::string::StringExecFns;
use crate::errors::Error;
use crate::value::Value;

verus! {

/// One navigation step of a path: descend into a mapping member, descend
/// into a sequence element, ascend one level, or reset to the root.
#[derive(Debug, PartialEq)]
pub enum YamlPathElem {
    DownObject(String),
    DownArray(i64),
    Up,
    Root,
}

/// An ordered chain of navigation steps.
pub type YamlPath = Vec<YamlPathElem>;

/// The mathematical model of a path element.
pub enum SpecPathElem {
    DownObject(Seq<char>),
    DownArray(i64),
    Up,
    Root,
}

/// The model of a single path element.
pub open spec fn view_elem(e: YamlPathElem) -> SpecPathElem {
    match e {
        YamlPathElem::DownObject(s) => SpecPathElem::DownObject(s@),
        YamlPathElem::DownArray(n) => SpecPathElem::DownArray(n),
        YamlPathElem::Up => SpecPathElem::Up,
        YamlPathElem::Root => SpecPathElem::Root,
    }
}

/// The models of a sequence of path elements, elementwise.
pub open spec fn view_path(s: Seq<YamlPathElem>) -> Seq<SpecPathElem> {
    Seq::new(s.len(), |i: int| view_elem(s[i]))
}

/// An owned copy of one path element, equal to the original in the model.
pub(crate) fn dup_elem(e: &YamlPathElem) -> (r: YamlPathElem)
    ensures
        view_elem(r) == view_elem(*e),
{
    match e {
        YamlPathElem::DownObject(s) => YamlPathElem::DownObject(s.clone()),
        YamlPathElem::DownArray(n) => YamlPathElem::DownArray(*n),
        YamlPathElem::Up => YamlPathElem::Up,
        YamlPathElem::Root => YamlPathElem::Root,
    }
}

/// One flat template token. Every character of the input belongs to
/// exactly one literal run or one tag.
#[derive(Debug, PartialEq)]
pub enum Token {
    Literal(String),
    DirectSub(YamlPath),
    CondSub(YamlPath),
    InvSub(YamlPath),
    EndSub,
    KeySub(i64),
    Comment(String),
}

/// The mathematical model of a token.
pub enum SpecToken {
    Literal(Seq<char>),
    DirectSub(Seq<SpecPathElem>),
    CondSub(Seq<SpecPathElem>),
    InvSub(Seq<SpecPathElem>),
    EndSub,
    KeySub(i64),
    Comment(Seq<char>),
}

/// The model of a single token.
pub open spec fn view_token(t: Token) -> SpecToken {
    match t {
        Token::Literal(s) => SpecToken::Literal(s@),
        Token::DirectSub(p) => SpecToken::DirectSub(view_path(p@)),
        Token::CondSub(p) => SpecToken::CondSub(view_path(p@)),
        Token::InvSub(p) => SpecToken::InvSub(view_path(p@)),
        Token::EndSub => SpecToken::EndSub,
        Token::KeySub(n) => SpecToken::KeySub(n),
        Token::Comment(s) => SpecToken::Comment(s@),
    }
}

/// The models of a sequence of tokens, elementwise.
pub open spec fn view_tokens(s: Seq<Token>) -> Seq<SpecToken> {
    Seq::new(s.len(), |i: int| view_token(s[i]))
}

/// Template whitespace: space, tab, carriage return, line feed.
pub open spec fn is_ws(c: char) -> bool {
    c == ' ' || c == '\t' || c == '\r' || c == '\n'
}

/// A decimal digit.
pub open spec fn is_digit(c: char) -> bool {
    48 <= (c as u32) && (c as u32) <= 57
}

/// A character allowed in a mapping-member path segment: ASCII
/// letters, digits, hyphen, underscore.
pub open spec fn is_keychar(c: char) -> bool {
    (65 <= (c as u32) && (c as u32) <= 90) || (97 <= (c as u32) && (c as u32) <= 122)
        || is_digit(c) || c == '-' || c == '_'
}

/// The numeric value of a digit character.
pub open spec fn digit_val(c: char) -> nat {
    ((c as u32) - 48) as nat
}

/// The value of a digit run, most significant digit first.
pub open spec fn digits_val(s: Seq<char>) -> nat
    decreases s.len(),
{
    if s.len() == 0 {
        0
    } else {
        digits_val(s.drop_last()) * 10 + digit_val(s.last())
    }
}

/// Whether `pat` occurs in `s` starting exactly at index `i`.
pub open spec fn occurs_at(s: Seq<char>, pat: Seq<char>, i: int) -> bool {
    0 <= i && i + pat.len() <= s.len() && s.subrange(i, i + pat.len()) == pat
}

/// The first index at or after `i` where `pat` occurs, or `s.len()`
/// if it occurs nowhere at or after `i`.
pub open spec fn find_at(s: Seq<char>, pat: Seq<char>, i: int) -> int
    recommends
        pat.len() > 0,
    decreases s.len() - i,
{
    if i < 0 || pat.len() <= 0 || i + pat.len() > s.len() {
        s.len() as int
    } else if occurs_at(s, pat, i) {
        i
    } else {
        find_at(s, pat, i + 1)
    }
}

/// The first index at or after `i` holding a non-whitespace character
/// (or the end of the text).
pub open spec fn skip_ws(s: Seq<char>, i: int) -> int
    decreases s.len() - i,
{
    if 0 <= i < s.len() && is_ws(s[i]) {
        skip_ws(s, i + 1)
    } else {
        i
    }
}

/// The end of the digit run starting at `i`.
pub open spec fn digit_run_end(s: Seq<char>, i: int) -> int
    decreases s.len() - i,
{
    if 0 <= i < s.len() && is_digit(s[i]) {
        digit_run_end(s, i + 1)
    } else {
        i
    }
}

/// The end of the key-character run starting at `i`.
pub open spec fn key_run_end(s: Seq<char>, i: int) -> int
    decreases s.len() - i,
{
    if 0 <= i < s.len() && is_keychar(s[i]) {
        key_run_end(s, i + 1)
    } else {
        i
    }
}

/// Whether a path segment starts at `i`: a digit run, a key run, or
/// the ascend operator.
pub open spec fn seg_starts(s: Seq<char>, i: int) -> bool {
    0 <= i < s.len() && (is_digit(s[i]) || is_keychar(s[i]) || s[i] == '&')
}

/// Parse one path segment starting at `i`: a digit run is a sequence
/// index (digits are tried first), a key run is a mapping member, and
/// `&` ascends. Fails only when an index overflows the machine range.
pub open spec fn parse_seg(s: Seq<char>, i: int) -> Result<(SpecPathElem, int), ()>
    recommends
        seg_starts(s, i),
{
    if is_digit(s[i]) {
        let e = digit_run_end(s, i);
        let v = digits_val(s.subrange(i, e));
        if v > i64::MAX {
            Err(())
        } else {
            Ok((SpecPathElem::DownArray(v as i64), e))
        }
    } else if is_keychar(s[i]) {
        Ok((SpecPathElem::DownObject(s.subrange(i, key_run_end(s, i))), key_run_end(s, i)))
    } else {
        Ok((SpecPathElem::Up, i + 1))
    }
}

/// After a segment ending at `q`, parse the remaining dot-separated
/// segments, whitespace skipped around each dot and segment. A dot not
/// followed by a segment is left unconsumed (the list simply ends).
/// The returned position is the end of the last segment.
pub open spec fn parse_more_segs(s: Seq<char>, q: int) -> Result<(Seq<SpecPathElem>, int), int>
    recommends
        0 <= q <= s.len(),
    decreases s.len() - q,
        via parse_more_segs_dec
{
    let d = skip_ws(s, q);
    if 0 <= q <= s.len() && d < s.len() && s[d] == '.' {
        let t = skip_ws(s, d + 1);
        if seg_starts(s, t) {
            match parse_seg(s, t) {
                Ok((e, q2)) => match parse_more_segs(s, q2) {
                    Ok((es, qf)) => Ok((seq![e] + es, qf)),
                    Err(p) => Err(p),
                },
                Err(()) => Err(t),
            }
        } else {
            Ok((Seq::empty(), q))
        }
    } else {
        Ok((Seq::empty(), q))
    }
}

/// `skip_ws` stays inside the text and never moves backwards.
pub proof fn lemma_skip_ws_bounds(s: Seq<char>, i: int)
    requires
        0 <= i <= s.len(),
    ensures
        i <= skip_ws(s, i) <= s.len(),
    decreases s.len() - i,
{
    if i < s.len() && is_ws(s[i]) {
        lemma_skip_ws_bounds(s, i + 1);
    }
}

/// `digit_run_end` stays inside the text and never moves backwards.
pub proof fn lemma_digit_run_bounds(s: Seq<char>, i: int)
    requires
        0 <= i <= s.len(),
    ensures
        i <= digit_run_end(s, i) <= s.len(),
    decreases s.len() - i,
{
    if i < s.len() && is_digit(s[i]) {
        lemma_digit_run_bounds(s, i + 1);
    }
}

/// `key_run_end` stays inside the text and never moves backwards.
pub proof fn lemma_key_run_bounds(s: Seq<char>, i: int)
    requires
        0 <= i <= s.len(),
    ensures
        i <= key_run_end(s, i) <= s.len(),
    decreases s.len() - i,
{
    if i < s.len() && is_keychar(s[i]) {
        lemma_key_run_bounds(s, i + 1);
    }
}

/// A parsed segment ends inside the text, strictly after its start.
pub proof fn lemma_parse_seg_bounds(s: Seq<char>, i: int)
    requires
        seg_starts(s, i),
    ensures
        parse_seg(s, i) matches Ok(p) ==> i < p.1 <= s.len(),
{
    if is_digit(s[i]) {
        lemma_digit_run_bounds(s, i + 1);
    } else if is_keychar(s[i]) {
        lemma_key_run_bounds(s, i + 1);
    }
}

#[via_fn]
proof fn parse_more_segs_dec(s: Seq<char>, q: int) {
    if 0 <= q <= s.len() {
        lemma_skip_ws_bounds(s, q);
        let d = skip_ws(s, q);
        if d < s.len() && s[d] == '.' {
            lemma_skip_ws_bounds(s, d + 1);
            let t = skip_ws(s, d + 1);
            if seg_starts(s, t) {
                lemma_parse_seg_bounds(s, t);
            }
        }
    }
}

/// The tail of a segment list ends inside the text, at or after its
/// start.
pub proof fn lemma_parse_more_bounds(s: Seq<char>, q: int)
    requires
        0 <= q <= s.len(),
    ensures
        parse_more_segs(s, q) matches Ok(p) ==> q <= p.1 <= s.len(),
    decreases s.len() - q,
{
    lemma_skip_ws_bounds(s, q);
    let d = skip_ws(s, q);
    if d < s.len() && s[d] == '.' {
        lemma_skip_ws_bounds(s, d + 1);
        let t = skip_ws(s, d + 1);
        if seg_starts(s, t) {
            lemma_parse_seg_bounds(s, t);
            match parse_seg(s, t) {
                Ok((e, q2)) => {
                    lemma_parse_more_bounds(s, q2);
                },
                Err(()) => {},
            }
        }
    }
}

/// Parse a whole path: optional whitespace, an optional leading dot
/// that anchors the path at the root, then dot-separated segments.
/// The returned position is the end of the last segment (or of the
/// leading whitespace and dot, for an empty path).
pub open spec fn parse_path(s: Seq<char>, i: int) -> Result<(Seq<SpecPathElem>, int), int>
    recommends
        0 <= i <= s.len(),
{
    let a = skip_ws(s, i);
    let anchored = a < s.len() && s[a] == '.';
    let b = if anchored {
        skip_ws(s, a + 1)
    } else {
        a
    };
    let head: Seq<SpecPathElem> = if anchored {
        seq![SpecPathElem::Root]
    } else {
        Seq::empty()
    };
    if seg_starts(s, b) {
        match parse_seg(s, b) {
            Ok((e, q)) => match parse_more_segs(s, q) {
                Ok((es, qf)) => Ok((head + seq![e] + es, qf)),
                Err(p) => Err(p),
            },
            Err(()) => Err(b),
        }
    } else {
        Ok((head, b))
    }
}

/// A parsed path ends inside the text, at or after its start.
pub proof fn lemma_parse_path_bounds(s: Seq<char>, i: int)
    requires
        0 <= i <= s.len(),
    ensures
        parse_path(s, i) matches Ok(p) ==> i <= p.1 <= s.len(),
{
    lemma_skip_ws_bounds(s, i);
    let a = skip_ws(s, i);
    if a < s.len() && s[a] == '.' {
        lemma_skip_ws_bounds(s, a + 1);
    }
    let b = if a < s.len() && s[a] == '.' {
        skip_ws(s, a + 1)
    } else {
        a
    };
    if seg_starts(s, b) {
        lemma_parse_seg_bounds(s, b);
        match parse_seg(s, b) {
            Ok((e, q)) => {
                lemma_parse_more_bounds(s, q);
            },
            Err(()) => {},
        }
    }
}

/// `find_at` stays between its start and the end of the text, and a
/// found position really holds the pattern.
pub proof fn lemma_find_at_bounds(s: Seq<char>, pat: Seq<char>, i: int)
    requires
        0 <= i <= s.len(),
        pat.len() > 0,
    ensures
        i <= find_at(s, pat, i) <= s.len(),
        find_at(s, pat, i) < s.len() ==> occurs_at(s, pat, find_at(s, pat, i)),
    decreases s.len() - i,
{
    if i + pat.len() > s.len() {
    } else if occurs_at(s, pat, i) {
    } else {
        lemma_find_at_bounds(s, pat, i + 1);
    }
}

/// Parse the tag whose opening delimiter stands at `i`: the comment
/// forms first (the long form only when its own terminator exists),
/// then the sigil-selected forms, then a plain path substitution. The
/// result carries the position just past the closing delimiter; an
/// error carries the position where tokenizing failed.
pub open spec fn spec_tag(s: Seq<char>, open: Seq<char>, close: Seq<char>, i: int) -> Result<
    (SpecToken, int),
    int,
>
    recommends
        occurs_at(s, open, i),
        open.len() > 0,
        close.len() > 0,
{
    let a = i + open.len();
    let term = seq!['-', '-'] + close;
    if occurs_at(s, seq!['!', '-', '-'], a) && find_at(s, term, a + 3) < s.len() {
        let t = find_at(s, term, a + 3);
        Ok((SpecToken::Comment(s.subrange(a + 3, t)), t + 2 + close.len()))
    } else if a < s.len() && s[a] == '!' {
        let t = find_at(s, close, a + 1);
        if t < s.len() {
            Ok((SpecToken::Comment(s.subrange(a + 1, t)), t + close.len()))
        } else {
            Err(i)
        }
    } else if a < s.len() && s[a] == '/' {
        let t = find_at(s, close, a + 1);
        if t < s.len() {
            Ok((SpecToken::EndSub, t + close.len()))
        } else {
            Err(i)
        }
    } else if a < s.len() && s[a] == '?' {
        let e = digit_run_end(s, a + 1);
        if !occurs_at(s, close, e) {
            Err(e)
        } else {
            let v = digits_val(s.subrange(a + 1, e));
            if v > i64::MAX {
                Err(a + 1)
            } else {
                Ok((SpecToken::KeySub(v as i64), e + close.len()))
            }
        }
    } else {
        let sigil: int = if a < s.len() && s[a] == '#' {
            1
        } else if a < s.len() && s[a] == '^' {
            2
        } else {
            0
        };
        let p0 = if sigil == 0 {
            a
        } else {
            a + 1
        };
        match parse_path(s, p0) {
            Ok((es, q)) => {
                let f = skip_ws(s, q);
                if occurs_at(s, close, f) {
                    let tok = if sigil == 1 {
                        SpecToken::CondSub(es)
                    } else if sigil == 2 {
                        SpecToken::InvSub(es)
                    } else {
                        SpecToken::DirectSub(es)
                    };
                    Ok((tok, f + close.len()))
                } else {
                    Err(f)
                }
            },
            Err(p) => Err(p),
        }
    }
}

/// A parsed tag ends inside the text, strictly after its start.
pub proof fn lemma_spec_tag_bounds(s: Seq<char>, open: Seq<char>, close: Seq<char>, i: int)
    requires
        occurs_at(s, open, i),
        open.len() > 0,
        close.len() > 0,
    ensures
        spec_tag(s, open, close, i) matches Ok(p) ==> i < p.1 <= s.len(),
{
    let a = i + open.len();
    let term = seq!['-', '-'] + close;
    lemma_find_at_bounds(s, term, if a + 3 <= s.len() {
        a + 3
    } else {
        s.len() as int
    });
    if occurs_at(s, seq!['!', '-', '-'], a) {
        lemma_find_at_bounds(s, term, a + 3);
    }
    if a < s.len() {
        lemma_find_at_bounds(s, close, a + 1);
        lemma_digit_run_bounds(s, a + 1);
        let e = digit_run_end(s, a + 1);
        lemma_parse_path_bounds(s, a);
        lemma_parse_path_bounds(s, a + 1);
        match parse_path(s, a) {
            Ok((es, q)) => {
                lemma_skip_ws_bounds(s, q);
            },
            Err(_) => {},
        }
        match parse_path(s, a + 1) {
            Ok((es, q)) => {
                lemma_skip_ws_bounds(s, q);
            },
            Err(_) => {},
        }
    } else {
        lemma_parse_path_bounds(s, a);
        match parse_path(s, a) {
            Ok((es, q)) => {
                lemma_skip_ws_bounds(s, q);
            },
            Err(_) => {},
        }
    }
}

/// The token stream of the template text from position `i` on: a tag
/// wherever the opening delimiter stands, otherwise a literal run up
/// to the next opening delimiter. An error anywhere fails the whole
/// pass.
pub open spec fn spec_tokens_from(
    s: Seq<char>,
    open: Seq<char>,
    close: Seq<char>,
    i: int,
) -> Result<Seq<SpecToken>, int>
    recommends
        0 <= i <= s.len(),
        open.len() > 0,
        close.len() > 0,
    decreases s.len() - i,
        via spec_tokens_from_dec
{
    if !(0 <= i <= s.len() && open.len() > 0 && close.len() > 0) {
        Ok(Seq::empty())
    } else if i >= s.len() {
        Ok(Seq::empty())
    } else if occurs_at(s, open, i) {
        match spec_tag(s, open, close, i) {
            Ok((tok, j)) => match spec_tokens_from(s, open, close, j) {
                Ok(ts) => Ok(seq![tok] + ts),
                Err(p) => Err(p),
            },
            Err(p) => Err(p),
        }
    } else {
        let j = find_at(s, open, i + 1);
        match spec_tokens_from(s, open, close, j) {
            Ok(ts) => Ok(seq![SpecToken::Literal(s.subrange(i, j))] + ts),
            Err(p) => Err(p),
        }
    }
}

#[via_fn]
proof fn spec_tokens_from_dec(s: Seq<char>, open: Seq<char>, close: Seq<char>, i: int) {
    if 0 <= i <= s.len() && open.len() > 0 && close.len() > 0 && i < s.len() {
        if occurs_at(s, open, i) {
            lemma_spec_tag_bounds(s, open, close, i);
        } else {
            lemma_find_at_bounds(s, open, i + 1);
        }
    }
}

/// The token stream of a whole template.
pub open spec fn spec_tokenize(s: Seq<char>, open: Seq<char>, close: Seq<char>) -> Result<
    Seq<SpecToken>,
    int,
> {
    spec_tokens_from(s, open, close, 0)
}

/// Every character of a digit run is a digit.
proof fn lemma_digit_run_chars(s: Seq<char>, i: int)
    requires
        0 <= i <= s.len(),
    ensures
        forall|m: int| i <= m < digit_run_end(s, i) ==> is_digit(s[m]),
    decreases s.len() - i,
{
    if i < s.len() && is_digit(s[i]) {
        lemma_digit_run_chars(s, i + 1);
        lemma_digit_run_bounds(s, i + 1);
    }
}

/// A longer digit run never has a smaller value.
proof fn lemma_digits_prefix(s: Seq<char>, k: int)
    requires
        0 <= k <= s.len(),
    ensures
        digits_val(s) >= digits_val(s.take(k)),
    decreases s.len() - k,
{
    if k < s.len() {
        assert(s.take(k + 1).drop_last() =~= s.take(k));
        assert(s.take(k + 1).last() == s[k]);
        lemma_digits_prefix(s, k + 1);
    } else {
        assert(s.take(k) =~= s);
    }
}

fn ws_x(c: char) -> (r: bool)
    ensures
        r == is_ws(c),
{
    c == ' ' || c == '\t' || c == '\r' || c == '\n'
}

fn digit_x(c: char) -> (r: bool)
    ensures
        r == is_digit(c),
{
    let u = c as u32;
    48 <= u && u <= 57
}

fn keychar_x(c: char) -> (r: bool)
    ensures
        r == is_keychar(c),
{
    let u = c as u32;
    (65 <= u && u <= 90) || (97 <= u && u <= 122) || (48 <= u && u <= 57) || c == '-' || c == '_'
}

/// Whether `pat` occurs in `s` starting exactly at `i`.
fn occurs_x(s: &Vec<char>, pat: &Vec<char>, i: usize) -> (r: bool)
    requires
        i <= s@.len(),
    ensures
        r == occurs_at(s@, pat@, i as int),
{
    let n: usize = pat.len();
    if n > s.len() - i {
        return false;
    }
    let mut j: usize = 0;
    while j < n
        invariant
            n == pat@.len(),
            i + n <= s@.len(),
            s@.len() <= usize::MAX,
            j <= n,
            forall|m: int| 0 <= m < j ==> s@[i + m] == pat@[m],
        decreases n - j,
    {
        if s[i + j] != pat[j] {
            proof {
                assert(s@.subrange(i as int, i + n)[j as int] != pat@[j as int]);
            }
            return false;
        }
        j += 1;
    }
    proof {
        assert(s@.subrange(i as int, i + n) =~= pat@);
    }
    true
}

/// The first occurrence of `pat` at or after `i` (the text length if
/// there is none).
fn find_x(s: &Vec<char>, pat: &Vec<char>, i: usize) -> (r: usize)
    requires
        i <= s@.len(),
        pat@.len() > 0,
    ensures
        r as int == find_at(s@, pat@, i as int),
        i <= r <= s@.len(),
        r < s@.len() ==> occurs_at(s@, pat@, r as int),
{
    proof {
        lemma_find_at_bounds(s@, pat@, i as int);
    }
    let mut j: usize = i;
    while pat.len() <= s.len() - j
        invariant
            i <= j <= s@.len(),
            pat@.len() > 0,
            find_at(s@, pat@, i as int) == find_at(s@, pat@, j as int),
        decreases s@.len() - j,
    {
        if occurs_x(s, pat, j) {
            return j;
        }
        j += 1;
    }
    s.len()
}

/// The end of the whitespace run starting at `i`.
fn skip_ws_x(s: &Vec<char>, i: usize) -> (r: usize)
    requires
        i <= s@.len(),
    ensures
        r as int == skip_ws(s@, i as int),
        i <= r <= s@.len(),
{
    let mut j: usize = i;
    while j < s.len() && ws_x(s[j])
        invariant
            i <= j <= s@.len(),
            skip_ws(s@, i as int) == skip_ws(s@, j as int),
        decreases s@.len() - j,
    {
        j += 1;
    }
    j
}

/// The end of the digit run starting at `i`.
fn digit_run_x(s: &Vec<char>, i: usize) -> (r: usize)
    requires
        i <= s@.len(),
    ensures
        r as int == digit_run_end(s@, i as int),
        i <= r <= s@.len(),
{
    let mut j: usize = i;
    while j < s.len() && digit_x(s[j])
        invariant
            i <= j <= s@.len(),
            digit_run_end(s@, i as int) == digit_run_end(s@, j as int),
        decreases s@.len() - j,
    {
        j += 1;
    }
    j
}

/// The end of the key-character run starting at `i`.
fn key_run_x(s: &Vec<char>, i: usize) -> (r: usize)
    requires
        i <= s@.len(),
    ensures
        r as int == key_run_end(s@, i as int),
        i <= r <= s@.len(),
{
    let mut j: usize = i;
    while j < s.len() && keychar_x(s[j])
        invariant
            i <= j <= s@.len(),
            key_run_end(s@, i as int) == key_run_end(s@, j as int),
        decreases s@.len() - j,
    {
        j += 1;
    }
    j
}

/// The value of the digit run `s[from..to]`, or an error if it does
/// not fit the machine integer range.
fn digits_to_i64(s: &Vec<char>, from: usize, to: usize) -> (r: Result<i64, ()>)
    requires
        from <= to <= s@.len(),
        forall|m: int| from <= m < to ==> is_digit(s@[m]),
    ensures
        match r {
            Ok(v) => 0 <= v && v as nat == digits_val(s@.subrange(from as int, to as int)),
            Err(()) => digits_val(s@.subrange(from as int, to as int)) > i64::MAX,
        },
{
    let ghost whole: Seq<char> = s@.subrange(from as int, to as int);
    let mut v: u64 = 0;
    let mut k: usize = from;
    proof {
        assert(whole.take(0) =~= Seq::<char>::empty());
    }
    while k < to
        invariant
            from <= k <= to <= s@.len(),
            whole == s@.subrange(from as int, to as int),
            forall|m: int| from <= m < to ==> is_digit(s@[m]),
            v <= i64::MAX as u64,
            v as nat == digits_val(whole.take(k - from)),
        decreases to - k,
    {
        let d: u64 = ((s[k] as u32) - 48) as u64;
        proof {
            assert(whole.take(k - from + 1).drop_last() =~= whole.take(k - from));
            assert(whole.take(k - from + 1).last() == s@[k as int]);
        }
        if v > (9223372036854775807u64 - d) / 10 {
            proof {
                assert(digits_val(whole.take(k - from + 1)) > i64::MAX);
                lemma_digits_prefix(whole, k - from + 1);
            }
            return Err(());
        }
        v = v * 10 + d;
        k += 1;
    }
    proof {
        assert(whole.take(to - from) =~= whole);
    }
    Ok(v as i64)
}

/// Parse one path segment at `i`.
fn parse_seg_x(s: &Vec<char>, i: usize) -> (r: Result<(YamlPathElem, usize), ()>)
    requires
        seg_starts(s@, i as int),
    ensures
        match r {
            Ok(p) => parse_seg(s@, i as int) == Ok::<(SpecPathElem, int), ()>(
                (view_elem(p.0), p.1 as int),
            ) && i < p.1 <= s@.len(),
            Err(()) => parse_seg(s@, i as int) is Err,
        },
{
    proof {
        lemma_parse_seg_bounds(s@, i as int);
    }
    let slen: usize = s.len();
    proof {
        assert(s@.len() == slen);
    }
    if digit_x(s[i]) {
        let e = digit_run_x(s, i);
        proof {
            lemma_digit_run_chars(s@, i as int);
        }
        match digits_to_i64(s, i, e) {
            Ok(v) => Ok((YamlPathElem::DownArray(v), e)),
            Err(()) => Err(()),
        }
    } else if keychar_x(s[i]) {
        let e = key_run_x(s, i);
        Ok((YamlPathElem::DownObject(crate::text::chars_string(s, i, e)), e))
    } else {
        Ok((YamlPathElem::Up, i + 1))
    }
}

/// Parse a whole path at `i`: leading whitespace, an optional
/// root-anchoring dot, then dot-separated segments.
fn parse_path_x(s: &Vec<char>, i: usize) -> (r: Result<(YamlPath, usize), usize>)
    requires
        i <= s@.len(),
    ensures
        match r {
            Ok(p) => parse_path(s@, i as int) == Ok::<(Seq<SpecPathElem>, int), int>(
                (view_path(p.0@), p.1 as int),
            ) && i <= p.1 <= s@.len(),
            Err(pos) => parse_path(s@, i as int) == Err::<(Seq<SpecPathElem>, int), int>(
                pos as int,
            ),
        },
{
    proof {
        lemma_parse_path_bounds(s@, i as int);
    }
    let a = skip_ws_x(s, i);
    let anchored = a < s.len() && s[a] == '.';
    let b = if anchored {
        skip_ws_x(s, a + 1)
    } else {
        a
    };
    let mut out: Vec<YamlPathElem> = Vec::new();
    if anchored {
        out.push(YamlPathElem::Root);
    }
    let ghost head: Seq<SpecPathElem> = if anchored {
        seq![SpecPathElem::Root]
    } else {
        Seq::empty()
    };
    proof {
        assert(view_path(out@) =~= head);
    }
    let segb = b < s.len() && (digit_x(s[b]) || keychar_x(s[b]) || s[b] == '&');
    if !segb {
        return Ok((out, b));
    }
    let (e0, q1) = match parse_seg_x(s, b) {
        Ok(p) => p,
        Err(()) => {
            return Err(b);
        },
    };
    let ghost ve0: SpecPathElem = view_elem(e0);
    out.push(e0);
    let ghost mut got: Seq<SpecPathElem> = Seq::empty();
    proof {
        lemma_parse_more_bounds(s@, q1 as int);
        assert(got + Seq::<SpecPathElem>::empty() =~= got);
        assert(view_path(out@) =~= head + seq![ve0] + got);
    }
    let mut q: usize = q1;
    loop
        invariant
            i <= s@.len(),
            q1 <= q <= s@.len(),
            view_path(out@) == head + seq![ve0] + got,
            parse_path(s@, i as int) == (match parse_more_segs(s@, q1 as int) {
                Ok(p2) => Ok::<(Seq<SpecPathElem>, int), int>((head + seq![ve0] + p2.0, p2.1)),
                Err(p) => Err::<(Seq<SpecPathElem>, int), int>(p),
            }),
            match parse_more_segs(s@, q as int) {
                Ok(p2) => parse_more_segs(s@, q1 as int) == Ok::<(Seq<SpecPathElem>, int), int>(
                    (got + p2.0, p2.1),
                ),
                Err(p) => parse_more_segs(s@, q1 as int) == Err::<(Seq<SpecPathElem>, int), int>(
                    p,
                ),
            },
        ensures
            q1 <= q <= s@.len(),
            view_path(out@) == head + seq![ve0] + got,
            parse_more_segs(s@, q1 as int) == Ok::<(Seq<SpecPathElem>, int), int>((got, q as int)),
        decreases s@.len() - q,
    {
        let d = skip_ws_x(s, q);
        if !(d < s.len() && s[d] == '.') {
            break;
        }
        let t = skip_ws_x(s, d + 1);
        let segt = t < s.len() && (digit_x(s[t]) || keychar_x(s[t]) || s[t] == '&');
        if !segt {
            break;
        }
        match parse_seg_x(s, t) {
            Ok((e, q2)) => {
                proof {
                    lemma_parse_more_bounds(s@, q2 as int);
                }
                let ghost oldgot: Seq<SpecPathElem> = got;
                let ghost oldpath: Seq<SpecPathElem> = view_path(out@);
                let ghost ve: SpecPathElem = view_elem(e);
                out.push(e);
                proof {
                    got = oldgot.push(ve);
                    assert(got =~= oldgot + seq![ve]);
                    assert(view_path(out@) =~= oldpath.push(ve));
                    assert(oldpath.push(ve) =~= head + seq![ve0] + got);
                    if let Ok(p2) = parse_more_segs(s@, q2 as int) {
                        assert(oldgot + (seq![ve] + p2.0) =~= got + p2.0);
                    }
                }
                q = q2;
            },
            Err(()) => {
                return Err(t);
            },
        }
    }
    proof {
        assert(head + seq![ve0] + got =~= head + (seq![ve0] + got));
    }
    Ok((out, q))
}

/// Parse the tag whose opening delimiter stands at `i`.
fn parse_tag_x(s: &Vec<char>, open: &Vec<char>, close: &Vec<char>, i: usize) -> (r: Result<
    (Token, usize),
    usize,
>)
    requires
        occurs_at(s@, open@, i as int),
        open@.len() > 0,
        close@.len() > 0,
    ensures
        match r {
            Ok(p) => spec_tag(s@, open@, close@, i as int) == Ok::<(SpecToken, int), int>(
                (view_token(p.0), p.1 as int),
            ) && i < p.1 <= s@.len(),
            Err(pos) => spec_tag(s@, open@, close@, i as int) == Err::<(SpecToken, int), int>(
                pos as int,
            ),
        },
{
    let slen: usize = s.len();
    proof {
        assert(s@.len() == slen);
    }
    let a = i + open.len();
    let mut term: Vec<char> = Vec::new();
    term.push('-');
    term.push('-');
    let nc: usize = close.len();
    let mut ci: usize = 0;
    while ci < nc
        invariant
            nc == close@.len(),
            ci <= nc,
            term@.len() == 2 + ci,
            term@[0] == '-' && term@[1] == '-',
            forall|m: int| 0 <= m < ci ==> term@[2 + m] == close@[m],
        decreases nc - ci,
    {
        term.push(close[ci]);
        ci += 1;
    }
    proof {
        assert(term@ =~= seq!['-', '-'] + close@);
    }
    let mut bang: Vec<char> = Vec::new();
    bang.push('!');
    bang.push('-');
    bang.push('-');
    proof {
        assert(bang@ =~= seq!['!', '-', '-']);
    }
    if occurs_x(s, &bang, a) {
        let t = find_x(s, &term, a + 3);
        if t < s.len() {
            let text = crate::text::chars_string(s, a + 3, t);
            return Ok((Token::Comment(text), t + 2 + close.len()));
        }
    }
    if a < s.len() && s[a] == '!' {
        let t = find_x(s, close, a + 1);
        if t < s.len() {
            return Ok((Token::Comment(crate::text::chars_string(s, a + 1, t)), t + close.len()));
        }
        return Err(i);
    }
    if a < s.len() && s[a] == '/' {
        let t = find_x(s, close, a + 1);
        if t < s.len() {
            return Ok((Token::EndSub, t + close.len()));
        }
        return Err(i);
    }
    if a < s.len() && s[a] == '?' {
        let e = digit_run_x(s, a + 1);
        if !occurs_x(s, close, e) {
            return Err(e);
        }
        proof {
            lemma_digit_run_chars(s@, a + 1);
        }
        match digits_to_i64(s, a + 1, e) {
            Ok(v) => {
                return Ok((Token::KeySub(v), e + close.len()));
            },
            Err(()) => {
                return Err(a + 1);
            },
        }
    }
    let hash_sig = a < s.len() && s[a] == '#';
    let inv_sig = a < s.len() && s[a] == '^';
    let p0 = if hash_sig || inv_sig {
        a + 1
    } else {
        a
    };
    match parse_path_x(s, p0) {
        Ok((path, q)) => {
            let f = skip_ws_x(s, q);
            if occurs_x(s, close, f) {
                let tok = if hash_sig {
                    Token::CondSub(path)
                } else if inv_sig {
                    Token::InvSub(path)
                } else {
                    Token::DirectSub(path)
                };
                return Ok((tok, f + close.len()));
            }
            return Err(f);
        },
        Err(p) => {
            return Err(p);
        },
    }
}

/// Tokenize a whole template against the two delimiters, or fail with
/// the position where tokenizing stopped.
pub(crate) fn tokenize_x(s: &Vec<char>, open: &Vec<char>, close: &Vec<char>) -> (r: Result<
    Vec<Token>,
    usize,
>)
    requires
        open@.len() > 0,
        close@.len() > 0,
    ensures
        match r {
            Ok(toks) => spec_tokenize(s@, open@, close@) == Ok::<Seq<SpecToken>, int>(
                view_tokens(toks@),
            ),
            Err(p) => spec_tokenize(s@, open@, close@) == Err::<Seq<SpecToken>, int>(p as int),
        },
{
    let mut out: Vec<Token> = Vec::new();
    let mut i: usize = 0;
    proof {
        assert(view_tokens(out@) =~= Seq::<SpecToken>::empty());
    }
    while i < s.len()
        invariant
            i <= s@.len(),
            open@.len() > 0,
            close@.len() > 0,
            match spec_tokens_from(s@, open@, close@, i as int) {
                Ok(ts) => spec_tokenize(s@, open@, close@) == Ok::<Seq<SpecToken>, int>(
                    view_tokens(out@) + ts,
                ),
                Err(p) => spec_tokenize(s@, open@, close@) == Err::<Seq<SpecToken>, int>(p),
            },
        decreases s@.len() - i,
    {
        if occurs_x(s, open, i) {
            match parse_tag_x(s, open, close, i) {
                Ok((tok, j)) => {
                    let ghost oldout: Seq<Token> = out@;
                    let ghost vt: SpecToken = view_token(tok);
                    out.push(tok);
                    proof {
                        assert(view_tokens(out@) =~= view_tokens(oldout).push(vt));
                        if let Ok(ts) = spec_tokens_from(s@, open@, close@, j as int) {
                            assert(view_tokens(oldout) + (seq![vt] + ts) =~= view_tokens(out@)
                                + ts);
                        }
                    }
                    i = j;
                },
                Err(p) => {
                    return Err(p);
                },
            }
        } else {
            let j = find_x(s, open, i + 1);
            let ghost oldout: Seq<Token> = out@;
            let ghost vt: SpecToken = SpecToken::Literal(s@.subrange(i as int, j as int));
            let lit = crate::text::chars_string(s, i, j);
            out.push(Token::Literal(lit));
            proof {
                assert(view_tokens(out@) =~= view_tokens(oldout).push(vt));
                if let Ok(ts) = spec_tokens_from(s@, open@, close@, j as int) {
                    assert(view_tokens(oldout) + (seq![vt] + ts) =~= view_tokens(out@) + ts);
                }
            }
            i = j;
        }
    }
    proof {
        assert(view_tokens(out@) + Seq::<SpecToken>::empty() =~= view_tokens(out@));
    }
    Ok(out)
}

/// An owned copy of a path, equal to the original in the model.
pub(crate) fn dup_path(p: &YamlPath) -> (r: YamlPath)
    ensures
        view_path(r@) == view_path(p@),
{
    let mut out: YamlPath = Vec::new();
    let n: usize = p.len();
    let mut i: usize = 0;
    while i < n
        invariant
            n == p@.len(),
            i <= n,
            out@.len() == i,
            forall|j: int| 0 <= j < i ==> view_elem(out@[j]) == view_elem(p@[j]),
        decreases n - i,
    {
        out.push(dup_elem(&p[i]));
        i += 1;
    }
    proof {
        assert(view_path(out@) =~= view_path(p@));
    }
    out
}

/// One node of the template tree. A section owns its children; the
/// tree is strict (no sharing).
#[derive(Debug, PartialEq)]
pub enum Node {
    Literal(String),
    DirectSub(YamlPath),
    CondSub(YamlPath, bool, Vec<Node>),
    KeySub(i64),
}

/// The mathematical model of a node.
pub enum SpecNode {
    Literal(Seq<char>),
    DirectSub(Seq<SpecPathElem>),
    CondSub(Seq<SpecPathElem>, bool, Seq<SpecNode>),
    KeySub(i64),
}

/// The model of a single node.
pub open spec fn view_node(n: Node) -> SpecNode
    decreases n,
{
    match n {
        Node::Literal(s) => SpecNode::Literal(s@),
        Node::DirectSub(p) => SpecNode::DirectSub(view_path(p@)),
        Node::CondSub(p, d, kids) => SpecNode::CondSub(view_path(p@), d, view_nodes(kids@)),
        Node::KeySub(k) => SpecNode::KeySub(k),
    }
}

/// The models of a sequence of nodes, elementwise.
pub open spec fn view_nodes(s: Seq<Node>) -> Seq<SpecNode>
    decreases s,
{
    if s.len() == 0 {
        Seq::empty()
    } else {
        seq![view_node(s[0])] + view_nodes(s.skip(1))
    }
}

/// `view_nodes` is an elementwise map: its length and members.
pub proof fn lemma_view_nodes(s: Seq<Node>)
    ensures
        view_nodes(s).len() == s.len(),
        forall|i: int| 0 <= i < s.len() ==> view_nodes(s)[i] == view_node(s[i]),
    decreases s,
{
    if s.len() > 0 {
        lemma_view_nodes(s.skip(1));
    }
}

/// Build a tree out of a flat token stream: plain tokens map to their
/// nodes (comments vanish), a section start swallows the span up to
/// its matching section end (or to the end of the stream, which
/// implicitly closes it), and a section end stops the current scan
/// without being consumed. The first component is how many tokens the
/// scan consumed before stopping.
pub open spec fn spec_build(toks: Seq<SpecToken>) -> (nat, Seq<SpecNode>)
    decreases toks.len(),
{
    if toks.len() == 0 {
        (0, Seq::empty())
    } else {
        match toks[0] {
            SpecToken::EndSub => (0, Seq::empty()),
            SpecToken::CondSub(p) => {
                let (c, kids) = spec_build(toks.skip(1));
                if c + 2 <= toks.len() {
                    let (c2, rest) = spec_build(toks.skip(c + 2 as int));
                    (
                        (c + 2 + c2) as nat,
                        seq![SpecNode::CondSub(p, true, kids)] + rest,
                    )
                } else {
                    (toks.len(), seq![SpecNode::CondSub(p, true, kids)])
                }
            },
            SpecToken::InvSub(p) => {
                let (c, kids) = spec_build(toks.skip(1));
                if c + 2 <= toks.len() {
                    let (c2, rest) = spec_build(toks.skip(c + 2 as int));
                    (
                        (c + 2 + c2) as nat,
                        seq![SpecNode::CondSub(p, false, kids)] + rest,
                    )
                } else {
                    (toks.len(), seq![SpecNode::CondSub(p, false, kids)])
                }
            },
            SpecToken::Literal(t) => {
                let (c, ns) = spec_build(toks.skip(1));
                ((c + 1) as nat, seq![SpecNode::Literal(t)] + ns)
            },
            SpecToken::DirectSub(p) => {
                let (c, ns) = spec_build(toks.skip(1));
                ((c + 1) as nat, seq![SpecNode::DirectSub(p)] + ns)
            },
            SpecToken::KeySub(k) => {
                let (c, ns) = spec_build(toks.skip(1));
                ((c + 1) as nat, seq![SpecNode::KeySub(k)] + ns)
            },
            SpecToken::Comment(_) => {
                let (c, ns) = spec_build(toks.skip(1));
                ((c + 1) as nat, ns)
            },
        }
    }
}

/// A scan never consumes more tokens than the stream holds.
pub proof fn lemma_spec_build_stop(toks: Seq<SpecToken>)
    ensures
        spec_build(toks).0 <= toks.len(),
    decreases toks.len(),
{
    if toks.len() > 0 {
        lemma_spec_build_stop(toks.skip(1));
        match toks[0] {
            SpecToken::CondSub(_) => {
                let (c, kids) = spec_build(toks.skip(1));
                if c + 2 <= toks.len() {
                    lemma_spec_build_stop(toks.skip(c + 2 as int));
                }
            },
            SpecToken::InvSub(_) => {
                let (c, kids) = spec_build(toks.skip(1));
                if c + 2 <= toks.len() {
                    lemma_spec_build_stop(toks.skip(c + 2 as int));
                }
            },
            _ => {},
        }
    }
}

/// Build the node tree of a token stream. Returns how many tokens the
/// top-level scan consumed before stopping (at an unmatched section
/// end, or the whole stream), and the nodes.
pub fn build_tree(tokens: &[Token]) -> (r: (usize, Vec<Node>))
    ensures
        r.0 as nat == spec_build(view_tokens(tokens@)).0,
        view_nodes(r.1@) == spec_build(view_tokens(tokens@)).1,
    decreases tokens@.len(),
{
    let ghost tm: Seq<SpecToken> = view_tokens(tokens@);
    proof {
        lemma_spec_build_stop(tm);
    }
    let mut ret: Vec<Node> = Vec::new();
    let mut i: usize = 0;
    let n: usize = tokens.len();
    proof {
        assert(view_nodes(ret@) =~= Seq::<SpecNode>::empty());
        assert(tm.skip(0) =~= tm);
    }
    while i < n
        invariant
            n == tokens@.len(),
            tm == view_tokens(tokens@),
            i <= n,
            spec_build(tm).0 == i + spec_build(tm.skip(i as int)).0,
            spec_build(tm).1 == view_nodes(ret@) + spec_build(tm.skip(i as int)).1,
        ensures
            i <= n,
            spec_build(tm).0 == i + spec_build(tm.skip(i as int)).0,
            spec_build(tm).1 == view_nodes(ret@) + spec_build(tm.skip(i as int)).1,
            i == n || tm.skip(i as int)[0] is EndSub,
        decreases n - i,
    {
        let ghost rest: Seq<SpecToken> = tm.skip(i as int);
        proof {
            assert(rest[0] == view_token(tokens@[i as int]));
            assert(rest.skip(1) =~= tm.skip(i + 1));
            lemma_spec_build_stop(rest.skip(1));
        }
        let ghost oldnodes: Seq<Node> = ret@;
        match &tokens[i] {
            Token::Literal(s) => {
                ret.push(Node::Literal(s.clone()));
                proof {
                    lemma_view_nodes(oldnodes);
                    lemma_view_nodes(ret@);
                    assert(view_nodes(ret@) =~= view_nodes(oldnodes).push(
                        SpecNode::Literal(s@),
                    ));
                    assert(view_nodes(oldnodes) + (seq![SpecNode::Literal(s@)] + spec_build(
                        rest.skip(1),
                    ).1) =~= view_nodes(ret@) + spec_build(rest.skip(1)).1);
                }
                i += 1;
            },
            Token::DirectSub(p) => {
                let d = dup_path(p);
                ret.push(Node::DirectSub(d));
                proof {
                    lemma_view_nodes(oldnodes);
                    lemma_view_nodes(ret@);
                    assert(view_nodes(ret@) =~= view_nodes(oldnodes).push(
                        SpecNode::DirectSub(view_path(p@)),
                    ));
                    assert(view_nodes(oldnodes) + (seq![SpecNode::DirectSub(view_path(p@))]
                        + spec_build(rest.skip(1)).1) =~= view_nodes(ret@) + spec_build(
                        rest.skip(1),
                    ).1);
                }
                i += 1;
            },
            Token::KeySub(k) => {
                ret.push(Node::KeySub(*k));
                proof {
                    lemma_view_nodes(oldnodes);
                    lemma_view_nodes(ret@);
                    assert(view_nodes(ret@) =~= view_nodes(oldnodes).push(
                        SpecNode::KeySub(*k),
                    ));
                    assert(view_nodes(oldnodes) + (seq![SpecNode::KeySub(*k)] + spec_build(
                        rest.skip(1),
                    ).1) =~= view_nodes(ret@) + spec_build(rest.skip(1)).1);
                }
                i += 1;
            },
            Token::Comment(_) => {
                i += 1;
            },
            Token::EndSub => {
                return (i, ret);
            },
            Token::CondSub(p) => {
                let children = build_tree(vstd::slice::slice_subrange(tokens, i + 1, n));
                let ghost node: SpecNode = SpecNode::CondSub(
                    view_path(p@),
                    true,
                    spec_build(rest.skip(1)).1,
                );
                proof {
                    assert(view_tokens(tokens@.subrange(i + 1, n as int)) =~= rest.skip(1));
                }
                let d = dup_path(p);
                ret.push(Node::CondSub(d, true, children.1));
                proof {
                    lemma_view_nodes(oldnodes);
                    lemma_view_nodes(ret@);
                    assert(view_nodes(ret@) =~= view_nodes(oldnodes).push(node));
                }
                let c = children.0;
                let rem = n - i;
                if rem >= 2 && c <= rem - 2 {
                    proof {
                        assert(rest.skip(c + 2) =~= tm.skip(i + c + 2));
                        assert(view_nodes(oldnodes) + (seq![node] + spec_build(
                            rest.skip(c + 2),
                        ).1) =~= view_nodes(ret@) + spec_build(rest.skip(c + 2)).1);
                    }
                    i = i + c + 2;
                } else {
                    proof {
                        assert(tm.skip(n as int) =~= Seq::<SpecToken>::empty());
                        assert(view_nodes(oldnodes) + seq![node] =~= view_nodes(ret@)
                            + Seq::<SpecNode>::empty());
                    }
                    i = n;
                }
            },
            Token::InvSub(p) => {
                let children = build_tree(vstd::slice::slice_subrange(tokens, i + 1, n));
                let ghost node: SpecNode = SpecNode::CondSub(
                    view_path(p@),
                    false,
                    spec_build(rest.skip(1)).1,
                );
                proof {
                    assert(view_tokens(tokens@.subrange(i + 1, n as int)) =~= rest.skip(1));
                }
                let d = dup_path(p);
                ret.push(Node::CondSub(d, false, children.1));
                proof {
                    lemma_view_nodes(oldnodes);
                    lemma_view_nodes(ret@);
                    assert(view_nodes(ret@) =~= view_nodes(oldnodes).push(node));
                }
                let c = children.0;
                let rem = n - i;
                if rem >= 2 && c <= rem - 2 {
                    proof {
                        assert(rest.skip(c + 2) =~= tm.skip(i + c + 2));
                        assert(view_nodes(oldnodes) + (seq![node] + spec_build(
                            rest.skip(c + 2),
                        ).1) =~= view_nodes(ret@) + spec_build(rest.skip(c + 2)).1);
                    }
                    i = i + c + 2;
                } else {
                    proof {
                        assert(tm.skip(n as int) =~= Seq::<SpecToken>::empty());
                        assert(view_nodes(oldnodes) + seq![node] =~= view_nodes(ret@)
                            + Seq::<SpecNode>::empty());
                    }
                    i = n;
                }
            },
        }
    }
    proof {
        assert(tm.skip(n as int) =~= Seq::<SpecToken>::empty());
        assert(view_nodes(ret@) + Seq::<SpecNode>::empty() =~= view_nodes(ret@));
    }
    (i, ret)
}

/// The phase of the two-phase input parser: the data block must be
/// asked for first, the template second, each exactly once.
#[derive(PartialEq, Eq, Structural, Clone, Copy, Debug)]
pub enum ParsePhase {
    Start,
    PostYaml,
    Done,
}

/// The two-phase parser over one input text: first the optional inline
/// data block at the top, then the template body that follows it.
pub struct Parser {
    remain: String,
    state: ParsePhase,
}

/// The inline data block at the top of an input: the text between an
/// opening dash fence and the first closing dot fence, and the rest of
/// the input after that fence. No fence at the very start (or an
/// unterminated one) means the whole input is template text.
pub open spec fn spec_block(s: Seq<char>) -> Option<(Seq<char>, Seq<char>)> {
    if occurs_at(s, "---\n"@, 0) {
        let t = find_at(s, "\n...\n"@, 4);
        if t < s.len() {
            Some((s.subrange(4, t), s.skip(t + 5)))
        } else {
            None
        }
    } else {
        None
    }
}

impl Parser {
    /// The input text not yet consumed.
    pub closed spec fn remain_view(&self) -> Seq<char> {
        self.remain@
    }

    /// Which phase the parser is in.
    pub closed spec fn phase(&self) -> ParsePhase {
        self.state
    }

    /// A parser over the given input, ready for its data-block phase.
    pub fn new(input: &str) -> (r: Self)
        ensures
            r.remain_view() == input@,
            r.phase() == ParsePhase::Start,
    {
        Parser { remain: String::from_str(input), state: ParsePhase::Start }
    }

    /// Split the inline data block off the top of the input and hand
    /// it to the outside document parser. Legal only as the first
    /// step; afterwards only the template may be asked for. With no
    /// block present the input is left whole and `None` is returned;
    /// what a block parses to is the document parser's affair, so on
    /// success nothing is promised of the returned documents beyond
    /// their presence.
    pub fn get_yaml(&mut self) -> (r: Result<Option<Vec<Value>>, Error>)
        ensures
            old(self).phase() != ParsePhase::Start ==> (r matches Err(e) && e is Phase
                && *final(self) == *old(self)),
            old(self).phase() == ParsePhase::Start ==> final(self).phase()
                == ParsePhase::PostYaml,
            old(self).phase() == ParsePhase::Start ==> (match spec_block(
                old(self).remain_view(),
            ) {
                None => r == Ok::<Option<Vec<Value>>, Error>(None) && final(self).remain_view()
                    == old(self).remain_view(),
                Some(bk) => match r {
                    Ok(opt) => opt is Some && final(self).remain_view() == bk.1,
                    Err(e) => e is Upstream && final(self).remain_view() == old(
                        self,
                    ).remain_view(),
                },
            }),
    {
        if !(self.state == ParsePhase::Start) {
            return Err(
                Error::Phase(String::from_str("the data block can only be read first")),
            );
        }
        self.state = ParsePhase::PostYaml;
        proof {
            reveal_strlit("---\n");
            reveal_strlit("\n...\n");
        }
        let chars = crate::text::str_chars(self.remain.as_str());
        let dashes = crate::text::str_chars("---\n");
        if occurs_x(&chars, &dashes, 0) {
            let dots = crate::text::str_chars("\n...\n");
            let t = find_x(&chars, &dots, 4);
            if t < chars.len() {
                let block = crate::text::chars_string(&chars, 4, t);
                let rest = crate::text::chars_string(&chars, t + 5, chars.len());
                proof {
                    assert(chars@.subrange(t + 5, chars@.len() as int) =~= chars@.skip(t + 5));
                }
                match crate::load::load_documents(block.as_str()) {
                    Ok(docs) => {
                        self.remain = rest;
                        Ok(Some(docs))
                    },
                    Err(msg) => Err(Error::Upstream(msg)),
                }
            } else {
                Ok(None)
            }
        } else {
            Ok(None)
        }
    }

    /// Tokenize the remaining input against the two delimiters and
    /// build its node tree. Legal only right after the data block was
    /// asked for. A tokenizing failure aborts the whole pass with a
    /// position-annotated syntax error; no partial tree is returned.
    pub fn get_tpl(&mut self, open: &str, close: &str) -> (r: Result<Vec<Node>, Error>)
        requires
            open@.len() > 0,
            close@.len() > 0,
        ensures
            old(self).phase() != ParsePhase::PostYaml ==> (r matches Err(e) && e is Phase
                && *final(self) == *old(self)),
            old(self).phase() == ParsePhase::PostYaml ==> (final(self).phase() == ParsePhase::Done
                && final(self).remain_view() == old(self).remain_view() && match spec_tokenize(
                old(self).remain_view(),
                open@,
                close@,
            ) {
                Ok(ts) => r matches Ok(nodes) && view_nodes(nodes@) == spec_build(ts).1,
                Err(p) => r matches Err(e) && (e matches Error::Syntax(pos) && pos as int == p),
            }),
    {
        if !(self.state == ParsePhase::PostYaml) {
            return Err(
                Error::Phase(
                    String::from_str("the template can only be read right after the data block"),
                ),
            );
        }
        self.state = ParsePhase::Done;
        let chars = crate::text::str_chars(self.remain.as_str());
        let openv = crate::text::str_chars(open);
        let closev = crate::text::str_chars(close);
        match tokenize_x(&chars, &openv, &closev) {
            Ok(toks) => {
                let built = build_tree(toks.as_slice());
                Ok(built.1)
            },
            Err(p) => Err(Error::Syntax(p)),
        }
    }
}

} // verus!
