//! Escaping of reserved bytes in property values. The escape alphabet is the
//! closed set backslash, newline, comma, semicolon; `\n` denotes a newline and
//! every other escaped byte denotes itself. Unescaping is total: a backslash
//! before any other byte drops the backslash, and a trailing lone backslash
//! stays. On this alphabet escaping and unescaping are mutually inverse.

use vstd::prelude::*;

use crate::bytes::{BSL, COMMA, LF, SEMI};

verus! {

/// The letter `n`, the escaped spelling of a newline.
pub const LETTER_N: u8 = 110;

/// How one byte is written inside a serialized value.
pub open spec fn escape1(b: u8) -> Seq<u8> {
    if b == BSL {
        seq![BSL, BSL]
    } else if b == LF {
        seq![BSL, LETTER_N]
    } else if b == COMMA {
        seq![BSL, COMMA]
    } else if b == SEMI {
        seq![BSL, SEMI]
    } else {
        seq![b]
    }
}

pub open spec fn spec_escape(v: Seq<u8>) -> Seq<u8>
    decreases v.len(),
{
    if v.len() == 0 {
        Seq::empty()
    } else {
        escape1(v[0]) + spec_escape(v.drop_first())
    }
}

/// The byte denoted by `b` when it follows a backslash.
pub open spec fn unescape2(b: u8) -> u8 {
    if b == LETTER_N {
        LF
    } else {
        b
    }
}

pub open spec fn spec_unescape(v: Seq<u8>) -> Seq<u8>
    decreases v.len(),
{
    if v.len() == 0 {
        Seq::empty()
    } else if v[0] == BSL && v.len() >= 2 {
        seq![unescape2(v[1])] + spec_unescape(v.skip(2))
    } else {
        seq![v[0]] + spec_unescape(v.skip(1))
    }
}

/// Escaping distributes over concatenation.
pub proof fn lemma_escape_concat(a: Seq<u8>, b: Seq<u8>)
    ensures
        spec_escape(a + b) == spec_escape(a) + spec_escape(b),
    decreases a.len(),
{
    if a.len() == 0 {
        assert(a + b =~= b);
        assert(spec_escape(a) + spec_escape(b) =~= spec_escape(b));
    } else {
        assert((a + b).drop_first() =~= a.drop_first() + b);
        lemma_escape_concat(a.drop_first(), b);
        assert(escape1((a + b)[0]) + (spec_escape(a.drop_first()) + spec_escape(b)) =~= (escape1(
            a[0],
        ) + spec_escape(a.drop_first())) + spec_escape(b));
    }
}

/// Escaping one more byte appends its escaped form.
pub proof fn lemma_escape_snoc(a: Seq<u8>, b: u8)
    ensures
        spec_escape(a.push(b)) == spec_escape(a) + escape1(b),
{
    lemma_escape_concat(a, seq![b]);
    assert(a.push(b) =~= a + seq![b]);
    assert(seq![b].drop_first() =~= Seq::<u8>::empty());
    assert(spec_escape(seq![b]) == escape1(b) + spec_escape(Seq::<u8>::empty()));
    assert(escape1(b) + Seq::<u8>::empty() =~= escape1(b));
    assert(spec_escape(a) + spec_escape(seq![b]) =~= spec_escape(a) + escape1(b));
}

/// Unescaping inverts escaping on every value.
pub proof fn lemma_unescape_escape(v: Seq<u8>)
    ensures
        spec_unescape(spec_escape(v)) == v,
    decreases v.len(),
{
    if v.len() == 0 {
    } else {
        let e = spec_escape(v);
        let rest = spec_escape(v.drop_first());
        lemma_unescape_escape(v.drop_first());
        if v[0] == BSL || v[0] == LF || v[0] == COMMA || v[0] == SEMI {
            assert(e =~= escape1(v[0]) + rest);
            assert(e.len() >= 2 && e[0] == BSL);
            assert(e.skip(2) =~= rest);
            assert(unescape2(e[1]) == v[0]);
            assert(spec_unescape(e) =~= seq![v[0]] + v.drop_first());
            assert(seq![v[0]] + v.drop_first() =~= v);
        } else {
            assert(e =~= seq![v[0]] + rest);
            assert(e[0] == v[0] && e[0] != BSL);
            assert(e.skip(1) =~= rest);
            assert(spec_unescape(e) =~= seq![v[0]] + v.drop_first());
            assert(seq![v[0]] + v.drop_first() =~= v);
        }
    }
}

/// Escape a value for one serialized line.
pub fn escape_bytes(v: &Vec<u8>) -> (r: Vec<u8>)
    ensures
        r@ == spec_escape(v@),
{
    let mut r: Vec<u8> = Vec::new();
    let mut i: usize = 0;
    while i < v.len()
        invariant
            0 <= i <= v.len(),
            r@ == spec_escape(v@.take(i as int)),
        decreases v.len() - i,
    {
        let ghost before = v@.take(i as int);
        let b = v[i];
        if b == BSL {
            r.push(BSL);
            r.push(BSL);
        } else if b == LF {
            r.push(BSL);
            r.push(LETTER_N);
        } else if b == COMMA {
            r.push(BSL);
            r.push(COMMA);
        } else if b == SEMI {
            r.push(BSL);
            r.push(SEMI);
        } else {
            r.push(b);
        }
        proof {
            lemma_escape_snoc(before, v@[i as int]);
            assert(v@.take(i + 1) =~= before.push(v@[i as int]));
            assert(r@ =~= spec_escape(before) + escape1(v@[i as int]));
        }
        i = i + 1;
    }
    proof {
        assert(v@.take(v@.len() as int) =~= v@);
    }
    r
}

/// Undo `escape_bytes` on a parsed raw value.
pub fn unescape_bytes(v: &Vec<u8>) -> (r: Vec<u8>)
    ensures
        r@ == spec_unescape(v@),
{
    let mut r: Vec<u8> = Vec::new();
    let mut i: usize = 0;
    proof {
        assert(v@.skip(0) =~= v@);
        assert(r@ + spec_unescape(v@) =~= spec_unescape(v@));
    }
    while i < v.len()
        invariant
            0 <= i <= v.len(),
            spec_unescape(v@) == r@ + spec_unescape(v@.skip(i as int)),
        decreases v.len() - i,
    {
        let ghost suffix = v@.skip(i as int);
        let ghost before = r@;
        if v[i] == BSL && i + 1 < v.len() {
            let b = v[i + 1];
            if b == LETTER_N {
                r.push(LF);
            } else {
                r.push(b);
            }
            proof {
                assert(suffix[0] == BSL && suffix.len() >= 2);
                assert(suffix[1] == v@[i + 1]);
                assert(suffix.skip(2) =~= v@.skip(i + 2));
                assert(spec_unescape(suffix) == seq![unescape2(suffix[1])] + spec_unescape(
                    v@.skip(i + 2),
                ));
                assert(r@ =~= before.push(unescape2(suffix[1])));
                assert(r@ + spec_unescape(v@.skip(i + 2)) =~= before + spec_unescape(suffix));
            }
            i = i + 2;
        } else {
            r.push(v[i]);
            proof {
                assert(suffix[0] == v@[i as int]);
                assert(!(suffix[0] == BSL && suffix.len() >= 2));
                assert(suffix.skip(1) =~= v@.skip(i + 1));
                assert(spec_unescape(suffix) == seq![suffix[0]] + spec_unescape(v@.skip(i + 1)));
                assert(r@ =~= before.push(suffix[0]));
                assert(r@ + spec_unescape(v@.skip(i + 1)) =~= before + spec_unescape(suffix));
            }
            i = i + 1;
        }
    }
    proof {
        assert(v@.skip(v@.len() as int) =~= Seq::<u8>::empty());
        assert(r@ + Seq::<u8>::empty() =~= r@);
    }
    r
}

} // verus!
