//! Byte-level helpers shared by the card parser and the index engine:
//! searching for a byte and splitting a byte string on a separator.

use vstd::prelude::*;

verus! {

// The ASCII bytes the card format and the index format give a meaning to.
pub const TAB: u8 = 9;
pub const LF: u8 = 10;
pub const CR: u8 = 13;
pub const SP: u8 = 32;
pub const COMMA: u8 = 44;
pub const DOT: u8 = 46;
pub const SLASH: u8 = 47;
pub const COLON: u8 = 58;
pub const SEMI: u8 = 59;
pub const LT: u8 = 60;
pub const GT: u8 = 62;
pub const BSL: u8 = 92;

/// Index of the first occurrence of `b` in `s` at or after `i`, or `s.len()`
/// if there is none.
pub open spec fn find_from(s: Seq<u8>, b: u8, i: int) -> int
    decreases s.len() - i when 0 <= i <= s.len()
{
    if i >= s.len() {
        s.len() as int
    } else if s[i] == b {
        i
    } else {
        find_from(s, b, i + 1)
    }
}

pub proof fn lemma_find_from(s: Seq<u8>, b: u8, i: int)
    requires
        0 <= i <= s.len(),
    ensures
        i <= find_from(s, b, i) <= s.len(),
        find_from(s, b, i) < s.len() ==> s[find_from(s, b, i)] == b,
        forall|j: int| i <= j < find_from(s, b, i) ==> s[j] != b,
    decreases s.len() - i,
{
    if i < s.len() && s[i] != b {
        lemma_find_from(s, b, i + 1);
    }
}

pub fn find_byte_from(v: &Vec<u8>, b: u8, start: usize) -> (r: usize)
    requires
        start <= v.len(),
    ensures
        r == find_from(v@, b, start as int),
{
    let mut i: usize = start;
    while i < v.len()
        invariant
            start <= i <= v.len(),
            find_from(v@, b, start as int) == find_from(v@, b, i as int),
            forall|j: int| start <= j < i ==> v@[j] != b,
        decreases v.len() - i,
    {
        if v[i] == b {
            return i;
        }
        i = i + 1;
    }
    i
}

/// Index of the last occurrence of `b` before position `i`, or -1.
pub open spec fn last_before(s: Seq<u8>, b: u8, i: int) -> int
    decreases i when 0 <= i <= s.len()
{
    if i <= 0 {
        -1
    } else if s[i - 1] == b {
        i - 1
    } else {
        last_before(s, b, i - 1)
    }
}

/// Index of the last occurrence of `b` before `i`, or `None`.
pub fn rfind_byte(v: &Vec<u8>, b: u8, i: usize) -> (r: Option<usize>)
    requires
        i <= v.len(),
    ensures
        r matches Some(k) ==> k == last_before(v@, b, i as int) && k < i,
        r is None ==> last_before(v@, b, i as int) == -1,
{
    let mut j: usize = i;
    while j > 0
        invariant
            0 <= j <= i <= v.len(),
            last_before(v@, b, i as int) == last_before(v@, b, j as int),
        decreases j,
    {
        if v[j - 1] == b {
            return Some(j - 1);
        }
        j = j - 1;
    }
    None
}

/// An owned copy of `v[a .. b]`.
pub fn copy_range(v: &Vec<u8>, a: usize, b: usize) -> (r: Vec<u8>)
    requires
        a <= b <= v.len(),
    ensures
        r@ == v@.subrange(a as int, b as int),
{
    let mut r: Vec<u8> = Vec::new();
    let mut k: usize = a;
    while k < b
        invariant
            a <= k <= b <= v.len(),
            r@ == v@.subrange(a as int, k as int),
        decreases b - k,
    {
        r.push(v[k]);
        proof {
            assert(r@ =~= v@.subrange(a as int, k + 1));
        }
        k = k + 1;
    }
    r
}

/// An owned copy of the whole byte string.
pub fn clone_bytes(v: &Vec<u8>) -> (r: Vec<u8>)
    ensures
        r@ == v@,
{
    let r = v.clone();
    proof {
        assert(r@ =~= v@);
    }
    r
}

/// Byte-string equality, as equality of views.
pub fn bytes_eq(a: &Vec<u8>, b: &Vec<u8>) -> (r: bool)
    ensures
        r <==> a@ == b@,
{
    if a.len() != b.len() {
        return false;
    }
    let mut i: usize = 0;
    while i < a.len()
        invariant
            0 <= i <= a.len(),
            a.len() == b.len(),
            forall|j: int| 0 <= j < i ==> a@[j] == b@[j],
        decreases a.len() - i,
    {
        if a[i] != b[i] {
            return false;
        }
        i = i + 1;
    }
    proof {
        assert(a@ =~= b@);
    }
    true
}

/// The segments of `s` between occurrences of `sep`, starting at `i`.
/// Splitting never yields an empty result: text without the separator is a
/// single segment, and a trailing separator yields a trailing empty segment,
/// as `str::split` does.
pub open spec fn split_from(s: Seq<u8>, sep: u8, i: int) -> Seq<Seq<u8>>
    decreases s.len() - i when 0 <= i <= s.len() via split_from_decreases
{
    let j = find_from(s, sep, i);
    if j == s.len() {
        seq![s.subrange(i, s.len() as int)]
    } else {
        seq![s.subrange(i, j)] + split_from(s, sep, j + 1)
    }
}

#[via_fn]
proof fn split_from_decreases(s: Seq<u8>, sep: u8, i: int) {
    lemma_find_from(s, sep, i);
}

pub open spec fn split_by(s: Seq<u8>, sep: u8) -> Seq<Seq<u8>> {
    split_from(s, sep, 0)
}

pub proof fn lemma_split_from_len(s: Seq<u8>, sep: u8, i: int)
    requires
        0 <= i <= s.len(),
    ensures
        split_from(s, sep, i).len() >= 1,
    decreases s.len() - i,
{
    lemma_find_from(s, sep, i);
    let j = find_from(s, sep, i);
    if j < s.len() {
        lemma_split_from_len(s, sep, j + 1);
    }
}

/// Split a byte string on `sep`, yielding owned segments.
pub fn split_vec(v: &Vec<u8>, sep: u8) -> (r: Vec<Vec<u8>>)
    ensures
        r.deep_view() == split_by(v@, sep),
{
    let mut r: Vec<Vec<u8>> = Vec::new();
    let mut pos: usize = 0;
    loop
        invariant_except_break
            pos <= v.len(),
            split_by(v@, sep) == r.deep_view() + split_from(v@, sep, pos as int),
        ensures
            r.deep_view() == split_by(v@, sep),
        decreases v.len() - pos,
    {
        proof {
            lemma_find_from(v@, sep, pos as int);
        }
        let j = find_byte_from(v, sep, pos);
        let mut seg: Vec<u8> = Vec::new();
        let mut k: usize = pos;
        while k < j
            invariant
                pos <= k <= j <= v.len(),
                seg@ == v@.subrange(pos as int, k as int),
            decreases j - k,
        {
            seg.push(v[k]);
            proof {
                assert(seg@ =~= v@.subrange(pos as int, k + 1));
            }
            k = k + 1;
        }
        let ghost old_r = r.deep_view();
        r.push(seg);
        proof {
            assert(r.deep_view() =~~= old_r + seq![v@.subrange(pos as int, j as int)]);
        }
        if j == v.len() {
            proof {
                assert(split_by(v@, sep) =~~= r.deep_view());
            }
            break;
        }
        pos = j + 1;
        proof {
            assert(split_by(v@, sep) =~~= r.deep_view() + split_from(v@, sep, pos as int));
        }
    }
    r
}

} // verus!
