//! The round-trip law: parsing a serialized card gives the card back.
//!
//! The law holds for well-formed cards: property names that are non-empty and
//! free of the structural bytes, parameter strings free of colons and
//! backslashes, and values over the permitted alphabet — everything except a
//! carriage return or a Unicode line/paragraph separator, which the escape
//! set does not cover. Newlines, commas, semicolons and backslashes in values
//! are fine: escaping handles them.

use vstd::prelude::*;

use crate::bytes::{find_from, lemma_find_from, BSL, COLON, CR, LF, SEMI};
use crate::escape::{escape1, lemma_unescape_escape, spec_escape};
use crate::item::{SpecItem, SpecProp};
use crate::parse::{
    break_len_at, first_break_from, fold_from, fold_lines, folds_ok, is_break_at, is_cont,
    nonblank, nonblank_from, spec_begin, spec_end, spec_parse, spec_parse_line, spec_parse_props,
    split_physical, split_physical_from, ParseError, SEP_B0, SEP_B1, SEP_LINE, SEP_PARA,
};
use crate::serialize::{
    spec_marker_line, spec_prop_line, spec_serialize, spec_serialize_props,
};

verus! {

/// No line terminator anywhere: the text sits on one line.
pub open spec fn line_ok(l: Seq<u8>) -> bool {
    forall|i: int| 0 <= i < l.len() ==> !is_break_at(l, i)
}

/// The UTF-8 bytes of a Unicode line or paragraph separator start at `i`.
pub open spec fn sep_triple_at(v: Seq<u8>, i: int) -> bool {
    i + 2 < v.len() && v[i] == SEP_B0 && v[i + 1] == SEP_B1 && (v[i + 2] == SEP_LINE || v[i + 2]
        == SEP_PARA)
}

/// The permitted value alphabet: anything except a carriage return or a
/// Unicode line/paragraph separator, neither of which the escape set covers.
pub open spec fn value_ok(v: Seq<u8>) -> bool {
    forall|i: int| 0 <= i < v.len() ==> v[i] != CR && !sep_triple_at(v, i)
}

/// A property the serializer can write and the parser will read back.
pub open spec fn wf_prop(p: SpecProp) -> bool {
    &&& p.name.len() > 0
    &&& !is_cont(p.name)
    &&& line_ok(p.name)
    &&& forall|i: int|
        0 <= i < p.name.len() ==> p.name[i] != COLON && p.name[i] != SEMI && p.name[i] != BSL
    &&& p.name != spec_begin()
    &&& p.name != spec_end()
    &&& line_ok(p.params)
    &&& forall|i: int| 0 <= i < p.params.len() ==> p.params[i] != COLON && p.params[i] != BSL
    &&& value_ok(p.value)
}

/// A card the round-trip law speaks of.
pub open spec fn wf_item(it: SpecItem) -> bool {
    &&& line_ok(it.name)
    &&& forall|k: int| 0 <= k < it.props.len() ==> wf_prop(#[trigger] it.props[k])
}

/// A terminator in a suffix is a terminator in the whole, at the shifted
/// position.
pub proof fn lemma_break_shift(s: Seq<u8>, c: int, i: int)
    requires
        0 <= c <= s.len(),
        0 <= i,
    ensures
        is_break_at(s.skip(c), i) == is_break_at(s, c + i),
{
    let t = s.skip(c);
    if i < t.len() {
        assert(t[i] == s[c + i]);
        if i + 1 < t.len() {
            assert(t[i + 1] == s[c + i + 1]);
        }
        if i + 2 < t.len() {
            assert(t[i + 2] == s[c + i + 2]);
        }
    }
}

pub proof fn lemma_first_break_shift(s: Seq<u8>, c: int, d: int)
    requires
        0 <= c,
        0 <= d,
        c + d <= s.len(),
    ensures
        first_break_from(s, c + d) == c + first_break_from(s.skip(c), d),
    decreases s.len() - c - d,
{
    let t = s.skip(c);
    lemma_break_shift(s, c, d);
    if c + d < s.len() && !is_break_at(s, c + d) {
        lemma_first_break_shift(s, c, d + 1);
    }
}

pub proof fn lemma_break_len_shift(s: Seq<u8>, c: int, i: int)
    requires
        0 <= c <= s.len(),
        0 <= i < s.len() - c,
    ensures
        break_len_at(s.skip(c), i) == break_len_at(s, c + i),
{
    let t = s.skip(c);
    assert(t[i] == s[c + i]);
    if i + 1 < t.len() {
        assert(t[i + 1] == s[c + i + 1]);
    }
}

/// Splitting from position `c + d` is splitting the suffix at `c` from `d`.
pub proof fn lemma_split_shift(s: Seq<u8>, c: int, d: int)
    requires
        0 <= c,
        0 <= d,
        c + d <= s.len(),
    ensures
        split_physical_from(s, c + d) == split_physical_from(s.skip(c), d),
    decreases s.len() - c - d,
{
    let t = s.skip(c);
    if c + d >= s.len() {
    } else {
        lemma_first_break_shift(s, c, d);
        let j = first_break_from(s, c + d);
        let j2 = first_break_from(t, d);
        crate::parse::lemma_first_break_from(s, c + d);
        assert(j == c + j2);
        if j == s.len() {
            assert(s.subrange(c + d, s.len() as int) =~= t.subrange(d, t.len() as int));
            assert(split_physical_from(s, c + d) =~~= split_physical_from(t, d));
        } else {
            lemma_break_len_shift(s, c, j2);
            let bl = break_len_at(s, j);
            assert(1 <= bl <= 3 && j + bl <= s.len());
            lemma_split_shift(s, c, j2 + bl);
            assert(s.subrange(c + d, j) =~= t.subrange(d, j2));
            assert(split_physical_from(s, c + d) =~~= split_physical_from(t, d));
        }
    }
}

/// If no terminator stands in `[i, k)` and one stands at `k` (or `k` is the
/// end), the first terminator from `i` is at `k`.
pub proof fn lemma_first_break_exact(s: Seq<u8>, i: int, k: int)
    requires
        0 <= i <= k <= s.len(),
        forall|j: int| i <= j < k ==> !is_break_at(s, j),
        k == s.len() || is_break_at(s, k),
    ensures
        first_break_from(s, i) == k,
    decreases k - i,
{
    if i < k {
        lemma_first_break_exact(s, i + 1, k);
    }
}

/// Cutting off one clean line: the text `l \n rest` splits into `l` and then
/// the lines of `rest`.
pub proof fn lemma_split_line(l: Seq<u8>, rest: Seq<u8>)
    requires
        line_ok(l),
    ensures
        split_physical(l + seq![LF] + rest) == seq![l] + split_physical(rest),
{
    let s = l + seq![LF] + rest;
    assert(s.len() == l.len() + 1 + rest.len());
    assert forall|i: int| 0 <= i < l.len() implies !is_break_at(s, i) by {
        assert(s[i] == l[i]);
        if is_break_at(s, i) {
            if s[i] == LF || s[i] == CR {
                assert(is_break_at(l, i));
            } else {
                assert(i + 2 < s.len() && s[i] == SEP_B0 && s[i + 1] == SEP_B1 && (s[i + 2]
                    == SEP_LINE || s[i + 2] == SEP_PARA));
                if i + 2 < l.len() {
                    assert(s[i + 1] == l[i + 1]);
                    assert(s[i + 2] == l[i + 2]);
                    assert(is_break_at(l, i));
                } else if i + 1 == l.len() {
                    assert(s[i + 1] == LF);
                } else {
                    assert(i + 2 == l.len());
                    assert(s[i + 2] == LF);
                }
            }
        }
    };
    assert(s[l.len() as int] == LF);
    assert(is_break_at(s, l.len() as int));
    lemma_first_break_exact(s, 0, l.len() as int);
    assert(break_len_at(s, l.len() as int) == 1);
    lemma_split_shift(s, l.len() as int + 1, 0);
    assert(s.skip(l.len() as int + 1) =~= rest);
    assert(s.subrange(0, l.len() as int) =~= l);
    assert(split_physical(s) =~~= seq![l] + split_physical(rest));
}

/// Joining two clean pieces with a byte that occurs in no terminator keeps
/// the whole on one line.
pub proof fn lemma_line_ok_join(a: Seq<u8>, b: Seq<u8>, sep: u8)
    requires
        line_ok(a),
        line_ok(b),
        sep != LF,
        sep != CR,
        sep != SEP_B0,
        sep != SEP_B1,
        sep != SEP_LINE,
        sep != SEP_PARA,
    ensures
        line_ok(a + seq![sep] + b),
{
    let s = a + seq![sep] + b;
    assert(s.len() == a.len() + 1 + b.len());
    assert forall|i: int| 0 <= i < s.len() implies !is_break_at(s, i) by {
        if i < a.len() {
            assert(s[i] == a[i]);
            if is_break_at(s, i) {
                if s[i] == LF || s[i] == CR {
                    assert(is_break_at(a, i));
                } else {
                    if i + 2 < a.len() {
                        assert(s[i + 1] == a[i + 1]);
                        assert(s[i + 2] == a[i + 2]);
                        assert(is_break_at(a, i));
                    } else if i + 1 == a.len() {
                        assert(s[i + 1] == sep);
                    } else {
                        assert(i + 2 == a.len());
                        assert(s[i + 2] == sep);
                    }
                }
            }
        } else if i == a.len() {
            assert(s[i] == sep);
        } else {
            let k = i - a.len() - 1;
            assert(s[i] == b[k]);
            if is_break_at(s, i) {
                if s[i] == LF || s[i] == CR {
                    assert(is_break_at(b, k));
                } else {
                    assert(s[i + 1] == b[k + 1]);
                    assert(s[i + 2] == b[k + 2]);
                    assert(is_break_at(b, k));
                }
            }
        }
    };
}

/// An escaped permitted value sits on one line: the escape set removes every
/// newline, and the other terminator bytes pass through escaping unmoved.
pub proof fn lemma_escape_line_ok(v: Seq<u8>)
    requires
        value_ok(v),
    ensures
        line_ok(spec_escape(v)),
    decreases v.len(),
{
    if v.len() == 0 {
    } else {
        let rest = v.drop_first();
        assert forall|i: int| 0 <= i < rest.len() implies rest[i] != CR && !sep_triple_at(
            rest,
            i,
        ) by {
            assert(rest[i] == v[i + 1]);
            if sep_triple_at(rest, i) {
                assert(rest[i + 1] == v[i + 2]);
                assert(rest[i + 2] == v[i + 3]);
                assert(sep_triple_at(v, i + 1));
            }
        };
        lemma_escape_line_ok(rest);
        let e = spec_escape(v);
        let chunk = escape1(v[0]);
        let erest = spec_escape(rest);
        assert(e == chunk + erest);
        let c = chunk.len() as int;
        assert(c == 1 || c == 2);
        assert forall|i: int| 0 <= i < e.len() implies !is_break_at(e, i) by {
            if i >= c {
                // Positions inside the escaped tail: the same bytes to the
                // end, so a terminator there would stand in `erest` too.
                assert(e[i] == erest[i - c]);
                if is_break_at(e, i) {
                    if e[i] == LF || e[i] == CR {
                        assert(is_break_at(erest, i - c));
                    } else {
                        assert(e[i + 1] == erest[i - c + 1]);
                        assert(e[i + 2] == erest[i - c + 2]);
                        assert(is_break_at(erest, i - c));
                    }
                }
            } else if c == 2 {
                // An escaped pair: a backslash and one of the four escape
                // letters, none of which opens a terminator.
                assert(e[0] == BSL);
                assert(e[1] == chunk[1]);
                assert(chunk[1] == BSL || chunk[1] == crate::escape::LETTER_N || chunk[1]
                    == crate::bytes::COMMA || chunk[1] == SEMI);
                assert(!is_break_at(e, i));
            } else {
                // A plain byte: not CR, not LF (those are escaped), and if it
                // opens the separator triple the source did too.
                assert(i == 0);
                assert(e[0] == v[0]);
                assert(v[0] != CR);
                assert(v[0] != LF);
                if is_break_at(e, 0) {
                    assert(e[0] == SEP_B0 && e[1] == SEP_B1 && (e[2] == SEP_LINE || e[2]
                        == SEP_PARA) && 2 < e.len());
                    assert(e[1] == erest[0]);
                    // The second byte comes from the tail: it is either a
                    // backslash or the tail's first source byte.
                    assert(rest.len() > 0);
                    let chunk2 = escape1(rest[0]);
                    let erest2 = spec_escape(rest.drop_first());
                    assert(erest == chunk2 + erest2);
                    assert(chunk2[0] == BSL || chunk2[0] == rest[0]);
                    assert(erest[0] == chunk2[0]);
                    assert(chunk2[0] == SEP_B1);
                    assert(chunk2.len() == 1);
                    assert(rest[0] == SEP_B1);
                    assert(e[2] == erest[1]);
                    assert(erest[1] == erest2[0]);
                    assert(rest.drop_first().len() > 0);
                    let rest2 = rest.drop_first();
                    let chunk3 = escape1(rest2[0]);
                    assert(erest2[0] == chunk3[0]);
                    assert(chunk3[0] == BSL || chunk3[0] == rest2[0]);
                    assert(rest2[0] == SEP_LINE || rest2[0] == SEP_PARA);
                    assert(v[1] == SEP_B1);
                    assert(v[2] == SEP_LINE || v[2] == SEP_PARA);
                    assert(sep_triple_at(v, 0));
                }
            }
        };
    }
}

/// The component markers are short ASCII words: clean, non-continuation, and
/// free of the structural bytes.
pub proof fn lemma_marker_facts()
    ensures
        line_ok(spec_begin()),
        line_ok(spec_end()),
        spec_begin().len() == 5,
        spec_end().len() == 3,
        forall|i: int|
            0 <= i < spec_begin().len() ==> spec_begin()[i] != COLON && spec_begin()[i] != SEMI
                && spec_begin()[i] != BSL,
        forall|i: int|
            0 <= i < spec_end().len() ==> spec_end()[i] != COLON && spec_end()[i] != SEMI
                && spec_end()[i] != BSL,
        !is_cont(spec_begin()),
        !is_cont(spec_end()),
{
    let b = spec_begin();
    let e = spec_end();
    assert forall|i: int| 0 <= i < b.len() implies b[i] != COLON && b[i] != SEMI && b[i] != BSL
        && !is_break_at(b, i) by {
        assert(b[0] == 66 && b[1] == 69 && b[2] == 71 && b[3] == 73 && b[4] == 78);
    };
    assert forall|i: int| 0 <= i < e.len() implies e[i] != COLON && e[i] != SEMI && e[i] != BSL
        && !is_break_at(e, i) by {
        assert(e[0] == 69 && e[1] == 78 && e[2] == 68);
    };
    assert(b[0] == 66);
    assert(e[0] == 69);
}

/// A serialized property line is clean, non-empty, and no continuation.
pub proof fn lemma_prop_line_ok(p: SpecProp)
    requires
        wf_prop(p),
    ensures
        line_ok(spec_prop_line(p)),
        spec_prop_line(p).len() > 0,
        !is_cont(spec_prop_line(p)),
{
    let l = spec_prop_line(p);
    lemma_escape_line_ok(p.value);
    let esc = spec_escape(p.value);
    if p.params.len() == 0 {
        assert(l =~= p.name + seq![COLON] + esc);
        lemma_line_ok_join(p.name, esc, COLON);
        assert(l[0] == p.name[0]);
    } else {
        let np = p.name + seq![SEMI] + p.params;
        lemma_line_ok_join(p.name, p.params, SEMI);
        lemma_line_ok_join(np, esc, COLON);
        assert(l =~= np + seq![COLON] + esc);
        assert(l[0] == p.name[0]);
    }
}

/// Folding lines none of which is a continuation changes nothing.
pub proof fn lemma_fold_from_id(lines: Seq<Seq<u8>>, cur: Seq<u8>, i: int)
    requires
        0 <= i <= lines.len(),
        forall|j: int| i <= j < lines.len() ==> !is_cont(#[trigger] lines[j]),
    ensures
        fold_from(lines, cur, i) == seq![cur] + lines.subrange(i, lines.len() as int),
    decreases lines.len() - i,
{
    if i >= lines.len() {
        assert(seq![cur] + lines.subrange(i, lines.len() as int) =~= seq![cur]);
    } else {
        lemma_fold_from_id(lines, lines[i], i + 1);
        assert(seq![cur] + (seq![lines[i]] + lines.subrange(i + 1, lines.len() as int)) =~= seq![
            cur,
        ] + lines.subrange(i, lines.len() as int));
    }
}

pub proof fn lemma_fold_id(lines: Seq<Seq<u8>>)
    requires
        lines.len() > 0,
        forall|j: int| 0 <= j < lines.len() ==> !is_cont(#[trigger] lines[j]),
    ensures
        fold_lines(lines) == lines,
{
    lemma_fold_from_id(lines, lines[0], 1);
    assert(seq![lines[0]] + lines.subrange(1, lines.len() as int) =~= lines);
}

/// Filtering empty lines out of all-non-empty lines changes nothing.
pub proof fn lemma_nonblank_id_from(lines: Seq<Seq<u8>>, i: int)
    requires
        0 <= i <= lines.len(),
        forall|j: int| i <= j < lines.len() ==> #[trigger] lines[j].len() > 0,
    ensures
        nonblank_from(lines, i) == lines.subrange(i, lines.len() as int),
    decreases lines.len() - i,
{
    if i >= lines.len() {
        assert(lines.subrange(i, lines.len() as int) =~= Seq::<Seq<u8>>::empty());
    } else {
        lemma_nonblank_id_from(lines, i + 1);
        assert(seq![lines[i]] + lines.subrange(i + 1, lines.len() as int) =~= lines.subrange(
            i,
            lines.len() as int,
        ));
    }
}

pub proof fn lemma_nonblank_id(lines: Seq<Seq<u8>>)
    requires
        forall|j: int| 0 <= j < lines.len() ==> #[trigger] lines[j].len() > 0,
    ensures
        nonblank(lines) == lines,
{
    lemma_nonblank_id_from(lines, 0);
    assert(lines.subrange(0, lines.len() as int) =~= lines);
}

/// In `a : b` with `a` free of colons and backslashes, the split colon is the
/// one after `a`.
pub proof fn lemma_find_colon_prefix(a: Seq<u8>, b: Seq<u8>, i: int)
    requires
        0 <= i <= a.len(),
        forall|j: int| 0 <= j < a.len() ==> a[j] != COLON && a[j] != BSL,
    ensures
        crate::parse::find_colon_from(a + seq![COLON] + b, i) == a.len(),
    decreases a.len() - i,
{
    let l = a + seq![COLON] + b;
    assert(l.len() == a.len() + 1 + b.len());
    if i == a.len() {
        assert(l[i] == COLON);
    } else {
        assert(l[i] == a[i]);
        lemma_find_colon_prefix(a, b, i + 1);
    }
}

/// In `a ; b` with `a` free of semicolons, the first semicolon is the one
/// after `a`.
pub proof fn lemma_find_sep_prefix(a: Seq<u8>, b: Seq<u8>, i: int)
    requires
        0 <= i <= a.len(),
        forall|j: int| 0 <= j < a.len() ==> a[j] != SEMI,
    ensures
        find_from(a + seq![SEMI] + b, SEMI, i) == a.len(),
    decreases a.len() - i,
{
    let l = a + seq![SEMI] + b;
    assert(l.len() == a.len() + 1 + b.len());
    if i == a.len() {
        assert(l[i] == SEMI);
    } else {
        assert(l[i] == a[i]);
        lemma_find_sep_prefix(a, b, i + 1);
    }
}

/// A `BEGIN:<name>` or `END:<name>` line parses back into its marker and
/// name.
pub proof fn lemma_parse_marker_line(marker: Seq<u8>, name: Seq<u8>)
    requires
        marker.len() > 0,
        forall|j: int| 0 <= j < marker.len() ==> marker[j] != COLON && marker[j] != SEMI
            && marker[j] != BSL,
    ensures
        spec_parse_line(spec_marker_line(marker, name)) == Ok::<SpecProp, ParseError>(
            SpecProp { name: marker, params: Seq::empty(), value: name },
        ),
{
    let l = spec_marker_line(marker, name);
    assert(l =~= marker + seq![COLON] + name);
    lemma_find_colon_prefix(marker, name, 0);
    let c = crate::parse::find_colon_from(l, 0);
    assert(c == marker.len());
    let left = l.subrange(0, c);
    assert(left =~= marker);
    assert(l.subrange(c + 1, l.len() as int) =~= name);
    lemma_find_from(left, SEMI, 0);
    let sc = find_from(left, SEMI, 0);
    assert(sc == left.len()) by {
        if sc < left.len() {
            assert(left[sc] == SEMI);
        }
    }
    assert(left.subrange(0, sc) =~= marker);
    assert(spec_parse_line(l) == Ok::<SpecProp, ParseError>(
        SpecProp { name: marker, params: Seq::empty(), value: name },
    ));
}

/// A serialized property line parses back into its parts, the value still
/// escaped.
pub proof fn lemma_parse_prop_line(p: SpecProp)
    requires
        wf_prop(p),
    ensures
        spec_parse_line(spec_prop_line(p)) == Ok::<SpecProp, ParseError>(
            SpecProp { name: p.name, params: p.params, value: spec_escape(p.value) },
        ),
{
    let l = spec_prop_line(p);
    let esc = spec_escape(p.value);
    if p.params.len() == 0 {
        assert(l =~= spec_marker_line(p.name, esc));
        lemma_parse_marker_line(p.name, esc);
        assert(p.params =~= Seq::<u8>::empty());
        assert(SpecProp { name: p.name, params: Seq::empty(), value: esc } =~~= SpecProp {
            name: p.name,
            params: p.params,
            value: esc,
        });
    } else {
        let a = p.name + seq![SEMI] + p.params;
        assert(l =~= a + seq![COLON] + esc);
        assert forall|j: int| 0 <= j < a.len() implies a[j] != COLON && a[j] != BSL by {
            if j < p.name.len() {
                assert(a[j] == p.name[j]);
            } else if j == p.name.len() {
                assert(a[j] == SEMI);
            } else {
                assert(a[j] == p.params[j - p.name.len() - 1]);
            }
        };
        lemma_find_colon_prefix(a, esc, 0);
        let c = crate::parse::find_colon_from(l, 0);
        assert(crate::parse::find_colon_from(a + seq![COLON] + esc, 0) == a.len());
        assert(c == a.len());
        assert(c < l.len());
        let left = l.subrange(0, c);
        assert(left =~= a);
        assert(l.subrange(c + 1, l.len() as int) =~= esc);
        lemma_find_sep_prefix(p.name, p.params, 0);
        let sc = find_from(left, SEMI, 0);
        assert(sc == p.name.len());
        assert(sc < left.len());
        assert(left.subrange(0, sc) =~= p.name);
        assert(left.subrange(sc + 1, left.len() as int) =~= p.params);
        assert(spec_parse_line(l) == Ok::<SpecProp, ParseError>(
            SpecProp { name: p.name, params: p.params, value: esc },
        ));
    }
}

/// The serialized property lines, one sequence entry per property.
pub open spec fn prop_lines_of(props: Seq<SpecProp>, i: int) -> Seq<Seq<u8>>
    decreases props.len() - i when 0 <= i <= props.len()
{
    if i >= props.len() {
        Seq::empty()
    } else {
        seq![spec_prop_line(props[i])] + prop_lines_of(props, i + 1)
    }
}

pub proof fn lemma_prop_lines_index(props: Seq<SpecProp>, i: int)
    requires
        0 <= i <= props.len(),
    ensures
        prop_lines_of(props, i).len() == props.len() - i,
        forall|j: int|
            0 <= j < props.len() - i ==> #[trigger] prop_lines_of(props, i)[j] == spec_prop_line(
                props[i + j],
            ),
    decreases props.len() - i,
{
    if i < props.len() {
        lemma_prop_lines_index(props, i + 1);
    }
}

/// The serialized properties followed by a final clean line split into the
/// property lines and that line.
pub proof fn lemma_split_serialized(props: Seq<SpecProp>, i: int, tail: Seq<u8>)
    requires
        0 <= i <= props.len(),
        forall|k: int| i <= k < props.len() ==> wf_prop(#[trigger] props[k]),
        line_ok(tail),
    ensures
        split_physical(spec_serialize_props(props, i) + (tail + seq![LF])) == prop_lines_of(
            props,
            i,
        ) + seq![tail],
    decreases props.len() - i,
{
    if i >= props.len() {
        let text = spec_serialize_props(props, i) + (tail + seq![LF]);
        assert(text =~= tail + seq![LF] + Seq::<u8>::empty());
        lemma_split_line(tail, Seq::empty());
        assert(split_physical(Seq::<u8>::empty()) =~~= Seq::<Seq<u8>>::empty());
        assert(prop_lines_of(props, i) + seq![tail] =~~= seq![tail] + split_physical(
            Seq::<u8>::empty(),
        ));
    } else {
        let pl = spec_prop_line(props[i]);
        let rest = spec_serialize_props(props, i + 1) + (tail + seq![LF]);
        let text = spec_serialize_props(props, i) + (tail + seq![LF]);
        assert(text =~= pl + seq![LF] + rest);
        lemma_prop_line_ok(props[i]);
        lemma_split_line(pl, rest);
        lemma_split_serialized(props, i + 1, tail);
        assert(seq![pl] + (prop_lines_of(props, i + 1) + seq![tail]) =~~= prop_lines_of(props, i)
            + seq![tail]);
    }
}

/// Parsing the middle lines gives the properties back, values unescaped.
pub proof fn lemma_parse_props_mid(ll: Seq<Seq<u8>>, props: Seq<SpecProp>, k: int)
    requires
        ll.len() == props.len() + 2,
        forall|j: int| 0 <= j < props.len() ==> #[trigger] ll[1 + j] == spec_prop_line(props[j]),
        forall|j: int| 0 <= j < props.len() ==> wf_prop(#[trigger] props[j]),
        0 <= k <= props.len(),
    ensures
        spec_parse_props(ll, 1 + k, props.len() as int + 1) == Ok::<Seq<SpecProp>, ParseError>(
            props.skip(k),
        ),
    decreases props.len() - k,
{
    if k == props.len() {
        assert(props.skip(k) =~= Seq::<SpecProp>::empty());
    } else {
        let p = props[k];
        assert(ll[1 + k] == spec_prop_line(p));
        lemma_parse_prop_line(p);
        lemma_unescape_escape(p.value);
        lemma_parse_props_mid(ll, props, k + 1);
        assert(SpecProp { name: p.name, params: p.params, value: p.value } =~~= p);
        assert(seq![p] + props.skip(k + 1) =~= props.skip(k));
    }
}

/// The round-trip law: for every well-formed card, parsing its serialization
/// yields the card itself — the same component name and the same properties,
/// names, parameters and values alike, in the same order.
pub proof fn lemma_parse_serialize(it: SpecItem)
    requires
        wf_item(it),
    ensures
        spec_parse(spec_serialize(it)) == Ok::<SpecItem, ParseError>(it),
{
    let s = spec_serialize(it);
    let l0 = spec_marker_line(spec_begin(), it.name);
    let ln = spec_marker_line(spec_end(), it.name);
    let n = it.props.len() as int;
    lemma_marker_facts();
    lemma_line_ok_join(spec_begin(), it.name, COLON);
    lemma_line_ok_join(spec_end(), it.name, COLON);
    assert(line_ok(l0)) by {
        assert(l0 =~= spec_begin() + seq![COLON] + it.name);
    }
    assert(line_ok(ln)) by {
        assert(ln =~= spec_end() + seq![COLON] + it.name);
    }
    let rest1 = spec_serialize_props(it.props, 0) + (ln + seq![LF]);
    assert(s =~= l0 + seq![LF] + rest1);
    lemma_split_line(l0, rest1);
    lemma_split_serialized(it.props, 0, ln);
    let mids = prop_lines_of(it.props, 0);
    let phys = seq![l0] + mids + seq![ln];
    assert(split_physical(s) =~~= phys);
    lemma_prop_lines_index(it.props, 0);
    assert(phys.len() == n + 2);
    assert(phys[0] == l0);
    assert(phys[n + 1] == ln);
    assert forall|j: int| 0 <= j < n implies phys[1 + j] == spec_prop_line(it.props[j]) by {
        assert(phys[1 + j] == mids[j]);
    };
    assert forall|j: int| 0 <= j < phys.len() implies !is_cont(#[trigger] phys[j])
        && phys[j].len() > 0 by {
        if j == 0 {
            assert(phys[j][0] == spec_begin()[0]);
        } else if j == n + 1 {
            assert(phys[j][0] == spec_end()[0]);
        } else {
            lemma_prop_line_ok(it.props[j - 1]);
            assert(phys[j] == spec_prop_line(it.props[j - 1]));
        }
    };
    assert(folds_ok(phys));
    lemma_fold_id(phys);
    lemma_nonblank_id(phys);
    let ll = nonblank(fold_lines(split_physical(s)));
    assert(ll == phys);
    lemma_parse_marker_line(spec_begin(), it.name);
    lemma_parse_marker_line(spec_end(), it.name);
    assert(spec_parse_line(ll[0]) == Ok::<SpecProp, ParseError>(
        SpecProp { name: spec_begin(), params: Seq::empty(), value: it.name },
    ));
    assert(spec_parse_line(ll[ll.len() - 1]) == Ok::<SpecProp, ParseError>(
        SpecProp { name: spec_end(), params: Seq::empty(), value: it.name },
    ));
    lemma_parse_props_mid(phys, it.props, 0);
    assert(spec_parse_props(ll, 1, ll.len() - 1) == Ok::<Seq<SpecProp>, ParseError>(
        it.props.skip(0),
    ));
    assert(it.props.skip(0) =~= it.props);
    assert(spec_parse(s) == Ok::<SpecItem, ParseError>(it)) by {
        assert(SpecItem { name: it.name, props: it.props } =~~= it);
    }
}

} // verus!
