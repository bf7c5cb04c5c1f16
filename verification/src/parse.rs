//! The card parser: raw text to `Item`.
//!
//! Physical lines end at `\n`, `\r\n`, `\r`, or the UTF-8 encodings of the
//! Unicode line and paragraph separators. A physical line that begins with a
//! space or tab continues the previous logical line, with that one leading
//! byte stripped. Each logical line splits as `name[;params]:value` at the
//! first unescaped colon, then at the first semicolon; the value is unescaped.
//! A malformed line fails the whole card: a half-read contact is worse than a
//! skipped one.

use vstd::prelude::*;

use crate::bytes::{find_from, BSL, COLON, CR, LF, SEMI, SP, TAB};
use crate::escape::{spec_unescape, unescape_bytes};
use crate::item::{Item, PropertyValue, SpecItem, SpecProp, spec_vcard};

verus! {

// The UTF-8 encoding of the Unicode line separator is `E2 80 A8`; the
// paragraph separator is `E2 80 A9`.
pub const SEP_B0: u8 = 226;
pub const SEP_B1: u8 = 128;
pub const SEP_LINE: u8 = 168;
pub const SEP_PARA: u8 = 169;

/// Why a card failed to parse.
#[derive(Clone, Copy, PartialEq, Eq, Structural, Debug)]
pub enum ParseError {
    /// A logical line had no unescaped colon.
    NoColon,
    /// A logical line had an empty property name.
    EmptyName,
    /// The first physical line began with whitespace, so there was nothing
    /// for it to continue.
    ContinuationAtStart,
    /// The `BEGIN`/`END` component markers were missing, mismatched, or
    /// appeared in the middle of the card.
    UnexpectedComponent,
}

/// Does a line terminator start at `i`?
pub open spec fn is_break_at(s: Seq<u8>, i: int) -> bool {
    0 <= i < s.len() && (s[i] == LF || s[i] == CR || (i + 2 < s.len() && s[i] == SEP_B0 && s[i + 1]
        == SEP_B1 && (s[i + 2] == SEP_LINE || s[i + 2] == SEP_PARA)))
}

/// How many bytes the terminator starting at `i` spans.
pub open spec fn break_len_at(s: Seq<u8>, i: int) -> int
    recommends
        is_break_at(s, i),
{
    if s[i] == CR {
        if i + 1 < s.len() && s[i + 1] == LF {
            2
        } else {
            1
        }
    } else if s[i] == LF {
        1
    } else {
        3
    }
}

/// Index of the first line terminator at or after `i`, or `s.len()`.
pub open spec fn first_break_from(s: Seq<u8>, i: int) -> int
    decreases s.len() - i when 0 <= i <= s.len()
{
    if i >= s.len() {
        s.len() as int
    } else if is_break_at(s, i) {
        i
    } else {
        first_break_from(s, i + 1)
    }
}

pub proof fn lemma_first_break_from(s: Seq<u8>, i: int)
    requires
        0 <= i <= s.len(),
    ensures
        i <= first_break_from(s, i) <= s.len(),
        first_break_from(s, i) < s.len() ==> is_break_at(s, first_break_from(s, i)),
        forall|j: int| i <= j < first_break_from(s, i) ==> !is_break_at(s, j),
    decreases s.len() - i,
{
    if i < s.len() && !is_break_at(s, i) {
        lemma_first_break_from(s, i + 1);
    }
}

/// The physical lines of `s` from `i` on: the segments between terminators.
/// Empty text has no lines, and a trailing terminator adds no empty line.
pub open spec fn split_physical_from(s: Seq<u8>, i: int) -> Seq<Seq<u8>>
    decreases s.len() - i when 0 <= i <= s.len() via split_physical_from_decreases
{
    if i >= s.len() {
        Seq::empty()
    } else {
        let j = first_break_from(s, i);
        if j == s.len() {
            seq![s.subrange(i, s.len() as int)]
        } else {
            seq![s.subrange(i, j)] + split_physical_from(s, j + break_len_at(s, j))
        }
    }
}

#[via_fn]
proof fn split_physical_from_decreases(s: Seq<u8>, i: int) {
    lemma_first_break_from(s, i);
}

pub open spec fn split_physical(s: Seq<u8>) -> Seq<Seq<u8>> {
    split_physical_from(s, 0)
}

/// Does this physical line continue the previous logical line?
pub open spec fn is_cont(l: Seq<u8>) -> bool {
    l.len() > 0 && (l[0] == SP || l[0] == TAB)
}

/// Reassemble logical lines from physical lines, `cur` being the logical line
/// under construction.
pub open spec fn fold_from(lines: Seq<Seq<u8>>, cur: Seq<u8>, i: int) -> Seq<Seq<u8>>
    decreases lines.len() - i when 0 <= i <= lines.len()
{
    if i >= lines.len() {
        seq![cur]
    } else if is_cont(lines[i]) {
        fold_from(lines, cur + lines[i].drop_first(), i + 1)
    } else {
        seq![cur] + fold_from(lines, lines[i], i + 1)
    }
}

/// A first physical line that is a continuation has nothing to continue.
pub open spec fn folds_ok(lines: Seq<Seq<u8>>) -> bool {
    lines.len() == 0 || !is_cont(lines[0])
}

pub open spec fn fold_lines(lines: Seq<Seq<u8>>) -> Seq<Seq<u8>>
    recommends
        folds_ok(lines),
{
    if lines.len() == 0 {
        Seq::empty()
    } else {
        fold_from(lines, lines[0], 1)
    }
}

/// The non-empty lines among `lines`, from `i` on.
pub open spec fn nonblank_from(lines: Seq<Seq<u8>>, i: int) -> Seq<Seq<u8>>
    decreases lines.len() - i when 0 <= i <= lines.len()
{
    if i >= lines.len() {
        Seq::empty()
    } else if lines[i].len() == 0 {
        nonblank_from(lines, i + 1)
    } else {
        seq![lines[i]] + nonblank_from(lines, i + 1)
    }
}

pub open spec fn nonblank(lines: Seq<Seq<u8>>) -> Seq<Seq<u8>> {
    nonblank_from(lines, 0)
}

/// Index of the colon that separates name and parameters from the value: the
/// first colon not preceded by an escaping backslash. A backslash always
/// escapes the byte after it, so scanning skips such pairs whole.
pub open spec fn find_colon_from(l: Seq<u8>, i: int) -> int
    decreases l.len() - i when 0 <= i <= l.len()
{
    if i >= l.len() {
        l.len() as int
    } else if l[i] == BSL {
        if i + 1 >= l.len() {
            l.len() as int
        } else {
            find_colon_from(l, i + 2)
        }
    } else if l[i] == COLON {
        i
    } else {
        find_colon_from(l, i + 1)
    }
}

pub proof fn lemma_find_colon_from(l: Seq<u8>, i: int)
    requires
        0 <= i <= l.len(),
    ensures
        i <= find_colon_from(l, i) <= l.len(),
        find_colon_from(l, i) < l.len() ==> l[find_colon_from(l, i)] == COLON,
    decreases l.len() - i,
{
    if i < l.len() {
        if l[i] == BSL {
            if i + 1 < l.len() {
                lemma_find_colon_from(l, i + 2);
            }
        } else if l[i] != COLON {
            lemma_find_colon_from(l, i + 1);
        }
    }
}

/// Split one logical line into name, parameter string, and raw value. The
/// value is left escaped; property parsing unescapes it, while the `BEGIN`
/// and `END` markers take it as it stands.
pub open spec fn spec_parse_line(l: Seq<u8>) -> Result<SpecProp, ParseError> {
    let c = find_colon_from(l, 0);
    if c == l.len() {
        Err(ParseError::NoColon)
    } else {
        let left = l.subrange(0, c);
        let rawv = l.subrange(c + 1, l.len() as int);
        let sc = find_from(left, SEMI, 0);
        let name = left.subrange(0, sc);
        let params = if sc == left.len() {
            Seq::<u8>::empty()
        } else {
            left.subrange(sc + 1, left.len() as int)
        };
        if name.len() == 0 {
            Err(ParseError::EmptyName)
        } else {
            Ok(SpecProp { name, params, value: rawv })
        }
    }
}

pub open spec fn spec_begin() -> Seq<u8> {
    seq![66u8, 69u8, 71u8, 73u8, 78u8]
}

pub open spec fn spec_end() -> Seq<u8> {
    seq![69u8, 78u8, 68u8]
}

/// Parse the property lines `lines[i .. end]`, unescaping each value. A
/// nested or stray component marker among them fails the card.
pub open spec fn spec_parse_props(lines: Seq<Seq<u8>>, i: int, end: int) -> Result<
    Seq<SpecProp>,
    ParseError,
>
    decreases end - i when 0 <= i <= end <= lines.len()
{
    if i >= end {
        Ok(Seq::empty())
    } else {
        match spec_parse_line(lines[i]) {
            Err(e) => Err(e),
            Ok(p) => {
                if p.name == spec_begin() || p.name == spec_end() {
                    Err(ParseError::UnexpectedComponent)
                } else {
                    match spec_parse_props(lines, i + 1, end) {
                        Err(e) => Err(e),
                        Ok(rest) => Ok(
                            seq![SpecProp { name: p.name, params: p.params, value: spec_unescape(p.value) }]
                                + rest,
                        ),
                    }
                }
            },
        }
    }
}

/// What parsing a card means. Empty text is an empty `VCARD`; otherwise the
/// first logical line must be `BEGIN:<name>` and the last `END:<name>`, and
/// everything between is a property.
pub open spec fn spec_parse(s: Seq<u8>) -> Result<SpecItem, ParseError> {
    let phys = split_physical(s);
    if !folds_ok(phys) {
        Err(ParseError::ContinuationAtStart)
    } else {
        let lines = nonblank(fold_lines(phys));
        if lines.len() == 0 {
            Ok(SpecItem { name: spec_vcard(), props: Seq::empty() })
        } else {
            match spec_parse_line(lines[0]) {
                Err(e) => Err(e),
                Ok(first) => {
                    if first.name != spec_begin() || first.params.len() != 0 {
                        Err(ParseError::UnexpectedComponent)
                    } else if lines.len() < 2 {
                        Err(ParseError::UnexpectedComponent)
                    } else {
                        match spec_parse_line(lines[lines.len() - 1]) {
                            Err(e) => Err(e),
                            Ok(last) => {
                                if last.name != spec_end() || last.params.len() != 0
                                    || last.value != first.value {
                                    Err(ParseError::UnexpectedComponent)
                                } else {
                                    match spec_parse_props(lines, 1, lines.len() - 1) {
                                        Err(e) => Err(e),
                                        Ok(props) => Ok(
                                            SpecItem { name: first.value, props },
                                        ),
                                    }
                                }
                            },
                        }
                    }
                }
            }
        }
    }
}

/// Length of the line terminator starting at `j`, or 0 if none starts there.
fn break_len(v: &Vec<u8>, j: usize) -> (r: usize)
    requires
        j < v.len(),
    ensures
        r == 0 <==> !is_break_at(v@, j as int),
        r != 0 ==> r == break_len_at(v@, j as int),
{
    let b = v[j];
    if b == CR {
        if j + 1 < v.len() && v[j + 1] == LF {
            2
        } else {
            1
        }
    } else if b == LF {
        1
    } else if b == SEP_B0 && v.len() - j > 2 && v[j + 1] == SEP_B1 && (v[j + 2] == SEP_LINE || v[j
        + 2] == SEP_PARA) {
        3
    } else {
        0
    }
}

/// The position of the next line terminator at or after `pos`, and its width
/// (0 when the text ends first).
fn next_break(v: &Vec<u8>, pos: usize) -> (r: (usize, usize))
    requires
        pos <= v.len(),
    ensures
        pos <= r.0 <= v.len(),
        r.0 == first_break_from(v@, pos as int),
        r.0 < v.len() ==> r.1 == break_len_at(v@, r.0 as int) && 1 <= r.1 <= 3 && is_break_at(
            v@,
            r.0 as int,
        ) && r.0 + r.1 <= v.len(),
        r.0 == v.len() ==> r.1 == 0,
{
    let mut j: usize = pos;
    while j < v.len()
        invariant
            pos <= j <= v.len(),
            first_break_from(v@, pos as int) == first_break_from(v@, j as int),
        decreases v.len() - j,
    {
        let bl = break_len(v, j);
        if bl != 0 {
            proof {
                assert(is_break_at(v@, j as int));
                assert(first_break_from(v@, j as int) == j as int);
                assert(j + bl <= v.len());
            }
            return (j, bl);
        }
        j = j + 1;
    }
    (j, 0)
}

/// Cut raw text into physical lines.
pub fn split_physical_vec(v: &Vec<u8>) -> (r: Vec<Vec<u8>>)
    ensures
        r.deep_view() == split_physical(v@),
{
    let mut r: Vec<Vec<u8>> = Vec::new();
    let mut pos: usize = 0;
    proof {
        assert(r.deep_view() + split_physical_from(v@, 0) =~~= split_physical_from(v@, 0));
    }
    while pos < v.len()
        invariant
            0 <= pos <= v.len(),
            split_physical(v@) == r.deep_view() + split_physical_from(v@, pos as int),
        decreases v.len() - pos,
    {
        let (j, blen) = next_break(v, pos);
        let line = crate::bytes::copy_range(v, pos, j);
        let ghost before = r.deep_view();
        r.push(line);
        proof {
            assert(r.deep_view() =~~= before + seq![v@.subrange(pos as int, j as int)]);
        }
        if j == v.len() {
            pos = v.len();
            proof {
                assert(split_physical(v@) =~~= r.deep_view() + split_physical_from(
                    v@,
                    pos as int,
                ));
            }
        } else {
            pos = j + blen;
            proof {
                assert(split_physical(v@) =~~= r.deep_view() + split_physical_from(
                    v@,
                    pos as int,
                ));
            }
        }
    }
    proof {
        assert(split_physical(v@) =~~= r.deep_view());
    }
    r
}

fn is_cont_line(l: &Vec<u8>) -> (r: bool)
    ensures
        r == is_cont(l@),
{
    l.len() > 0 && (l[0] == SP || l[0] == TAB)
}

/// Reassemble logical lines from physical ones.
fn fold_vec(lines: &Vec<Vec<u8>>) -> (r: Vec<Vec<u8>>)
    requires
        folds_ok(lines.deep_view()),
    ensures
        r.deep_view() == fold_lines(lines.deep_view()),
{
    let ghost ll = lines.deep_view();
    let mut r: Vec<Vec<u8>> = Vec::new();
    if lines.len() == 0 {
        proof {
            assert(r.deep_view() =~~= fold_lines(ll));
        }
        return r;
    }
    let mut cur: Vec<u8> = crate::bytes::clone_bytes(&lines[0]);
    let mut i: usize = 1;
    proof {
        assert(ll[0] =~= lines@[0]@);
        assert(r.deep_view() + fold_from(ll, cur@, 1) =~~= fold_from(ll, cur@, 1));
    }
    while i < lines.len()
        invariant
            1 <= i <= lines.len(),
            ll == lines.deep_view(),
            fold_lines(ll) == r.deep_view() + fold_from(ll, cur@, i as int),
        decreases lines.len() - i,
    {
        proof {
            assert(ll[i as int] =~= lines@[i as int]@);
        }
        if is_cont_line(&lines[i]) {
            let ghost cur_before = cur@;
            let mut tail = crate::bytes::copy_range(&lines[i], 1, lines[i].len());
            cur.append(&mut tail);
            proof {
                assert(ll[i as int].drop_first() =~= ll[i as int].subrange(
                    1,
                    ll[i as int].len() as int,
                ));
                assert(cur@ =~= cur_before + ll[i as int].drop_first());
            }
        } else {
            let ghost before = r.deep_view();
            let ghost cur_v = cur@;
            let next = crate::bytes::clone_bytes(&lines[i]);
            r.push(cur);
            cur = next;
            proof {
                assert(cur@ =~= ll[i as int]);
                assert(r.deep_view() =~~= before + seq![cur_v]);
                assert(fold_lines(ll) =~~= r.deep_view() + fold_from(ll, cur@, i + 1));
            }
        }
        i = i + 1;
    }
    let ghost before = r.deep_view();
    let ghost cur_v = cur@;
    r.push(cur);
    proof {
        assert(fold_from(ll, cur_v, ll.len() as int) =~= seq![cur_v]);
        assert(r.deep_view() =~~= before + seq![cur_v]);
    }
    r
}

/// Drop empty logical lines.
fn nonblank_vec(lines: &Vec<Vec<u8>>) -> (r: Vec<Vec<u8>>)
    ensures
        r.deep_view() == nonblank(lines.deep_view()),
{
    let ghost ll = lines.deep_view();
    let mut r: Vec<Vec<u8>> = Vec::new();
    let mut i: usize = 0;
    proof {
        assert(r.deep_view() + nonblank_from(ll, 0) =~~= nonblank_from(ll, 0));
    }
    while i < lines.len()
        invariant
            0 <= i <= lines.len(),
            ll == lines.deep_view(),
            nonblank(ll) == r.deep_view() + nonblank_from(ll, i as int),
        decreases lines.len() - i,
    {
        proof {
            assert(ll[i as int] =~= lines@[i as int]@);
        }
        if lines[i].len() > 0 {
            let ghost before = r.deep_view();
            r.push(crate::bytes::clone_bytes(&lines[i]));
            proof {
                assert(r.deep_view() =~~= before + seq![ll[i as int]]);
            }
        }
        i = i + 1;
    }
    proof {
        assert(nonblank(ll) =~~= r.deep_view());
    }
    r
}

/// Split one logical line at the first unescaped colon and the first
/// semicolon before it. The returned value is still escaped.
pub fn parse_line(l: &Vec<u8>) -> (r: Result<PropertyValue, ParseError>)
    ensures
        r matches Ok(p) ==> spec_parse_line(l@) == Ok::<SpecProp, ParseError>(p@),
        r matches Err(e) ==> spec_parse_line(l@) == Err::<SpecProp, ParseError>(e),
{
    let mut i: usize = 0;
    loop
        invariant_except_break
            0 <= i <= l.len(),
            find_colon_from(l@, 0) == find_colon_from(l@, i as int),
        ensures
            0 <= i <= l.len(),
            i == find_colon_from(l@, 0),
        decreases l.len() - i,
    {
        if i >= l.len() {
            break;
        }
        if l[i] == BSL {
            if i + 1 >= l.len() {
                i = l.len();
                break;
            }
            i = i + 2;
        } else if l[i] == COLON {
            break;
        } else {
            i = i + 1;
        }
    }
    let c = i;
    if c == l.len() {
        return Err(ParseError::NoColon);
    }
    let ghost left = l@.subrange(0, c as int);
    let mut j: usize = 0;
    while j < c && l[j] != SEMI
        invariant
            0 <= j <= c < l.len(),
            left == l@.subrange(0, c as int),
            find_from(left, SEMI, 0) == find_from(left, SEMI, j as int),
        decreases c - j,
    {
        j = j + 1;
    }
    let sc = j;
    proof {
        assert(find_from(left, SEMI, 0) == sc as int);
    }
    let name = crate::bytes::copy_range(l, 0, sc);
    let params = if sc == c {
        Vec::new()
    } else {
        crate::bytes::copy_range(l, sc + 1, c)
    };
    let rawv = crate::bytes::copy_range(l, c + 1, l.len());
    proof {
        assert(name@ =~= left.subrange(0, sc as int));
        if sc < c {
            assert(params@ =~= left.subrange(sc + 1, left.len() as int));
        } else {
            assert(params@ =~= Seq::<u8>::empty());
        }
    }
    if name.len() == 0 {
        return Err(ParseError::EmptyName);
    }
    Ok(PropertyValue { name, params, value: rawv })
}

pub fn begin_marker() -> (r: Vec<u8>)
    ensures
        r@ == spec_begin(),
{
    let mut v: Vec<u8> = Vec::new();
    v.push(66);
    v.push(69);
    v.push(71);
    v.push(73);
    v.push(78);
    proof {
        assert(v@ =~= spec_begin());
    }
    v
}

pub fn end_marker() -> (r: Vec<u8>)
    ensures
        r@ == spec_end(),
{
    let mut v: Vec<u8> = Vec::new();
    v.push(69);
    v.push(78);
    v.push(68);
    proof {
        assert(v@ =~= spec_end());
    }
    v
}

/// Parse a whole card. Any malformed line fails the card; the error says
/// what was wrong first.
#[verifier::loop_isolation(false)]
pub fn parse_item(text: &Vec<u8>) -> (r: Result<Item, ParseError>)
    ensures
        r matches Ok(it) ==> spec_parse(text@) == Ok::<SpecItem, ParseError>(it@),
        r matches Err(e) ==> spec_parse(text@) == Err::<SpecItem, ParseError>(e),
{
    let phys = split_physical_vec(text);
    let ghost pl = phys.deep_view();
    if phys.len() > 0 {
        proof {
            assert(pl[0] =~= phys@[0]@);
        }
        if is_cont_line(&phys[0]) {
            return Err(ParseError::ContinuationAtStart);
        }
    }
    let folded = fold_vec(&phys);
    let lines = nonblank_vec(&folded);
    let ghost ll = lines.deep_view();
    if lines.len() == 0 {
        let it = Item::new();
        proof {
            assert(spec_parse(text@) == Ok::<SpecItem, ParseError>(it@)) by {
                assert(it@ =~~= SpecItem { name: spec_vcard(), props: Seq::empty() });
            }
        }
        return Ok(it);
    }
    proof {
        assert(ll[0] =~= lines@[0]@);
    }
    let first = match parse_line(&lines[0]) {
        Ok(p) => p,
        Err(e) => {
            return Err(e);
        },
    };
    let bm = begin_marker();
    if !crate::bytes::bytes_eq(&first.name, &bm) || first.params.len() != 0 {
        return Err(ParseError::UnexpectedComponent);
    }
    if lines.len() < 2 {
        return Err(ParseError::UnexpectedComponent);
    }
    proof {
        assert(ll[ll.len() - 1] =~= lines@[lines@.len() - 1]@);
    }
    let last = match parse_line(&lines[lines.len() - 1]) {
        Ok(p) => p,
        Err(e) => {
            return Err(e);
        },
    };
    let em = end_marker();
    if !crate::bytes::bytes_eq(&last.name, &em) || last.params.len() != 0 || !crate::bytes::bytes_eq(
        &last.value,
        &first.value,
    ) {
        return Err(ParseError::UnexpectedComponent);
    }
    let end = lines.len() - 1;
    let mut props: Vec<PropertyValue> = Vec::new();
    let mut i: usize = 1;
    proof {
        let sp1 = spec_parse_props(ll, 1, end as int);
        if sp1 is Ok {
            assert(props.deep_view() + sp1->Ok_0 =~~= sp1->Ok_0);
        }
    }
    while i < end
        invariant
            1 <= i <= end == ll.len() - 1,
            ll == lines.deep_view(),
            lines.len() >= 2,
            spec_parse_props(ll, i as int, end as int) matches Ok(rest) ==> spec_parse_props(
                ll,
                1,
                end as int,
            ) == Ok::<Seq<SpecProp>, ParseError>(props.deep_view() + rest),
            spec_parse_props(ll, i as int, end as int) matches Err(e) ==> spec_parse_props(
                ll,
                1,
                end as int,
            ) == Err::<Seq<SpecProp>, ParseError>(e),
        decreases end - i,
    {
        proof {
            assert(ll[i as int] =~= lines@[i as int]@);
        }
        let p = match parse_line(&lines[i]) {
            Ok(p) => p,
            Err(e) => {
                return Err(e);
            },
        };
        let bm2 = begin_marker();
        let em2 = end_marker();
        if crate::bytes::bytes_eq(&p.name, &bm2) || crate::bytes::bytes_eq(&p.name, &em2) {
            return Err(ParseError::UnexpectedComponent);
        }
        let value = unescape_bytes(&p.value);
        let ghost pv = SpecProp { name: p.name@, params: p.params@, value: spec_unescape(p.value@) };
        let ghost before = props.deep_view();
        props.push(PropertyValue { name: p.name, params: p.params, value });
        proof {
            assert(props.deep_view() =~~= before + seq![pv]);
            let sp_next = spec_parse_props(ll, i + 1, end as int);
            if sp_next is Ok {
                let rest = sp_next->Ok_0;
                assert(spec_parse_props(ll, i as int, end as int) == Ok::<
                    Seq<SpecProp>,
                    ParseError,
                >(seq![pv] + rest));
                assert(before + (seq![pv] + rest) =~~= props.deep_view() + rest);
            }
        }
        i = i + 1;
    }
    proof {
        assert(spec_parse_props(ll, end as int, end as int) == Ok::<Seq<SpecProp>, ParseError>(
            Seq::empty(),
        ));
        assert(props.deep_view() + Seq::<SpecProp>::empty() =~~= props.deep_view());
    }
    let it = Item { name: first.value, props };
    proof {
        assert(spec_parse(text@) == Ok::<SpecItem, ParseError>(it@)) by {
            assert(it@ =~~= SpecItem {
                name: spec_parse_line(ll[0])->Ok_0.value,
                props: spec_parse_props(ll, 1, end as int)->Ok_0,
            });
        }
    }
    Ok(it)
}

} // verus!
