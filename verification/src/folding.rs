//! The folding law: writing a line-fold marker — a newline followed by one
//! space — anywhere inside card text changes nothing about how the card
//! parses. Folding a long property line and unfolding it again are thus
//! inverse by construction, at any split point.
//!
//! The law asks only that the split not land inside a terminator: the left
//! part must not end with a bare carriage return (the marker's newline would
//! complete it), the junction must not sit inside a Unicode separator's
//! bytes, and the right part must not begin with folding whitespace of its
//! own (it would then fold onto whatever line came before the split).

use vstd::prelude::*;

use crate::bytes::{CR, LF, SP};
use crate::parse::{
    break_len_at, first_break_from, fold_from, fold_lines, folds_ok, is_break_at, is_cont,
    lemma_first_break_from, nonblank, nonblank_from, spec_parse, split_physical, SEP_B0,
};
use crate::roundtrip::{
    lemma_break_shift, lemma_first_break_exact, lemma_split_shift, sep_triple_at,
};

verus! {

/// Where a fold marker may be written into `s1 + s2`.
pub open spec fn insert_ok(s1: Seq<u8>, s2: Seq<u8>) -> bool {
    &&& !(s1.len() > 0 && s1[s1.len() - 1] == CR)
    &&& !is_cont(s2)
    &&& forall|i: int|
        0 <= i < s1.len() && i + 2 >= s1.len() ==> !sep_triple_at(#[trigger] (s1 + s2), i)
}

/// The text with the fold marker written at the junction.
pub open spec fn folded_text(s1: Seq<u8>, s2: Seq<u8>) -> Seq<u8> {
    s1 + seq![LF, SP] + s2
}

/// A separator triple in a suffix is one in the whole, shifted.
pub proof fn lemma_triple_shift(s: Seq<u8>, c: int, i: int)
    requires
        0 <= c <= s.len(),
        0 <= i,
    ensures
        sep_triple_at(s.skip(c), i) == sep_triple_at(s, c + i),
{
    let t = s.skip(c);
    if i + 2 < t.len() {
        assert(t[i] == s[c + i]);
        assert(t[i + 1] == s[c + i + 1]);
        assert(t[i + 2] == s[c + i + 2]);
    }
}

/// Folding reads only the lines from its position on.
pub proof fn lemma_fold_congr(l1: Seq<Seq<u8>>, i1: int, l2: Seq<Seq<u8>>, i2: int, cur: Seq<u8>)
    requires
        0 <= i1 <= l1.len(),
        0 <= i2 <= l2.len(),
        l1.skip(i1) == l2.skip(i2),
    ensures
        fold_from(l1, cur, i1) == fold_from(l2, cur, i2),
    decreases l1.len() - i1,
{
    assert(l1.skip(i1).len() == l1.len() - i1);
    assert(l2.skip(i2).len() == l2.len() - i2);
    assert(l1.skip(i1).len() == l2.skip(i2).len());
    if i1 >= l1.len() {
        assert(i2 >= l2.len());
    } else {
        assert(i2 < l2.len());
        assert(l1[i1] == l1.skip(i1)[0]);
        assert(l2[i2] == l2.skip(i2)[0]);
        assert(l1[i1] == l2[i2]);
        assert(l1.skip(i1 + 1) =~= l2.skip(i2 + 1)) by {
            assert forall|k: int| 0 <= k < l1.len() - i1 - 1 implies #[trigger] l1.skip(i1 + 1)[k]
                == l2.skip(i2 + 1)[k] by {
                assert(l1.skip(i1 + 1)[k] == l1.skip(i1)[k + 1]);
                assert(l2.skip(i2 + 1)[k] == l2.skip(i2)[k + 1]);
            }
        }
        if is_cont(l1[i1]) {
            lemma_fold_congr(l1, i1 + 1, l2, i2 + 1, cur + l1[i1].drop_first());
        } else {
            lemma_fold_congr(l1, i1 + 1, l2, i2 + 1, l1[i1]);
        }
    }
}

/// Blank-line filtering reads only the lines from its position on.
pub proof fn lemma_nonblank_congr(l1: Seq<Seq<u8>>, i1: int, l2: Seq<Seq<u8>>, i2: int)
    requires
        0 <= i1 <= l1.len(),
        0 <= i2 <= l2.len(),
        l1.skip(i1) == l2.skip(i2),
    ensures
        nonblank_from(l1, i1) == nonblank_from(l2, i2),
    decreases l1.len() - i1,
{
    assert(l1.skip(i1).len() == l1.len() - i1);
    assert(l2.skip(i2).len() == l2.len() - i2);
    assert(l1.skip(i1).len() == l2.skip(i2).len());
    if i1 >= l1.len() {
        assert(i2 >= l2.len());
    } else {
        assert(i2 < l2.len());
        assert(l1[i1] == l1.skip(i1)[0]);
        assert(l2[i2] == l2.skip(i2)[0]);
        assert(l1[i1] == l2[i2]);
        assert(l1.skip(i1 + 1) =~= l2.skip(i2 + 1)) by {
            assert forall|k: int| 0 <= k < l1.len() - i1 - 1 implies #[trigger] l1.skip(i1 + 1)[k]
                == l2.skip(i2 + 1)[k] by {
                assert(l1.skip(i1 + 1)[k] == l1.skip(i1)[k + 1]);
                assert(l2.skip(i2 + 1)[k] == l2.skip(i2)[k + 1]);
            }
        }
        lemma_nonblank_congr(l1, i1 + 1, l2, i2 + 1);
    }
}

/// Before the junction, the marked and unmarked texts have the same
/// terminators, of the same widths, each contained in the left part.
pub proof fn lemma_region_breaks(s1: Seq<u8>, s2: Seq<u8>, i: int)
    requires
        insert_ok(s1, s2),
        0 <= i < s1.len(),
    ensures
        is_break_at(folded_text(s1, s2), i) == is_break_at(s1 + s2, i),
        is_break_at(s1 + s2, i) ==> break_len_at(folded_text(s1, s2), i) == break_len_at(
            s1 + s2,
            i,
        ) && i + break_len_at(s1 + s2, i) <= s1.len(),
{
    let a = folded_text(s1, s2);
    let b = s1 + s2;
    assert(a[i] == s1[i]);
    assert(b[i] == s1[i]);
    if s1[i] == LF {
        assert(is_break_at(a, i) && is_break_at(b, i));
        assert(break_len_at(a, i) == 1 && break_len_at(b, i) == 1);
    } else if s1[i] == CR {
        assert(is_break_at(a, i) && is_break_at(b, i));
        assert(i < s1.len() - 1) by {
            assert(!(s1.len() > 0 && s1[s1.len() - 1] == CR));
        }
        assert(a[i + 1] == s1[i + 1]);
        assert(b[i + 1] == s1[i + 1]);
        if s1[i + 1] == LF {
            assert(break_len_at(a, i) == 2 && break_len_at(b, i) == 2);
        } else {
            assert(break_len_at(a, i) == 1 && break_len_at(b, i) == 1);
        }
    } else {
        // Only a separator triple could open a terminator here.
        if i + 2 < s1.len() {
            assert(a[i + 1] == s1[i + 1]);
            assert(a[i + 2] == s1[i + 2]);
            assert(b[i + 1] == s1[i + 1]);
            assert(b[i + 2] == s1[i + 2]);
            assert(is_break_at(a, i) == is_break_at(b, i));
            if is_break_at(b, i) {
                assert(break_len_at(a, i) == 3 && break_len_at(b, i) == 3);
            }
        } else {
            // The junction: the marker's newline blocks a triple in the
            // marked text, and `insert_ok` rules one out in the plain text.
            assert(!sep_triple_at(b, i));
            assert(!is_break_at(b, i));
            if i + 1 == s1.len() {
                assert(a[i + 1] == LF);
                assert(a[i + 1] != SEP_B0 && a[i + 1] != 128);
            } else {
                assert(i + 2 == s1.len());
                assert(a[i + 2] == LF);
            }
            assert(!is_break_at(a, i));
        }
    }
}

/// Filtering one known line off the front.
pub proof fn lemma_nonblank_cons(x: Seq<u8>, rest: Seq<Seq<u8>>)
    ensures
        nonblank(seq![x] + rest) == (if x.len() > 0 {
            seq![x]
        } else {
            Seq::<Seq<u8>>::empty()
        }) + nonblank(rest),
{
    let l = seq![x] + rest;
    assert(l[0] == x);
    assert(l.skip(1) =~= rest);
    assert(rest.skip(0) =~= rest);
    lemma_nonblank_congr(l, 1, rest, 0);
    if x.len() > 0 {
        assert(nonblank_from(l, 0) == seq![x] + nonblank_from(l, 1));
    } else {
        assert(nonblank_from(l, 0) == nonblank_from(l, 1));
        assert(Seq::<Seq<u8>>::empty() + nonblank(rest) =~~= nonblank(rest));
    }
}

/// Folding with a seed line, against folding the lines on their own.
pub proof fn lemma_fold_lines_as_all(ls: Seq<Seq<u8>>, d: Seq<u8>)
    requires
        folds_ok(ls),
    ensures
        fold_from(ls, d, 0) == seq![d] + fold_lines(ls),
{
    if ls.len() == 0 {
        assert(seq![d] + fold_lines(ls) =~~= seq![d]);
    } else {
        assert(!is_cont(ls[0]));
    }
}

/// The heart of the folding law: under any folding state, the marked and
/// unmarked texts fold to the same logical lines, up to blank lines.
#[verifier::rlimit(100)]
pub proof fn lemma_fold_all_insert(s1: Seq<u8>, s2: Seq<u8>, cur: Seq<u8>)
    requires
        insert_ok(s1, s2),
    ensures
        nonblank(fold_from(split_physical(folded_text(s1, s2)), cur, 0)) == nonblank(
            fold_from(split_physical(s1 + s2), cur, 0),
        ),
        folds_ok(split_physical(folded_text(s1, s2))) == folds_ok(split_physical(s1 + s2)),
    decreases s1.len(),
{
    let a = folded_text(s1, s2);
    let b = s1 + s2;
    assert(a.len() == s1.len() + 2 + s2.len());
    assert(b.len() == s1.len() + s2.len());
    assert forall|i: int| 0 <= i < s1.len() implies (is_break_at(a, i) == is_break_at(b, i)) && (
    is_break_at(b, i) ==> break_len_at(a, i) == break_len_at(b, i) && i + break_len_at(b, i)
        <= s1.len()) by {
        lemma_region_breaks(s1, s2, i);
    };
    let la = split_physical(a);
    let lb = split_physical(b);
    let jb = first_break_from(b, 0);
    lemma_first_break_from(b, 0);
    if jb < s1.len() {
        // A terminator inside the left part: both texts shed the same first
        // line, and the tail is the same insertion one line later.
        let bl = break_len_at(b, jb);
        assert(is_break_at(a, jb) && break_len_at(a, jb) == bl && jb + bl <= s1.len());
        lemma_first_break_exact(a, 0, jb);
        lemma_split_shift(a, jb + bl, 0);
        lemma_split_shift(b, jb + bl, 0);
        let l = b.subrange(0, jb);
        assert(a.subrange(0, jb) =~= l);
        let s1p = s1.skip(jb + bl);
        assert(a.skip(jb + bl) =~= folded_text(s1p, s2));
        assert(b.skip(jb + bl) =~= s1p + s2);
        assert(la =~~= seq![l] + split_physical(folded_text(s1p, s2)));
        assert(lb =~~= seq![l] + split_physical(s1p + s2));
        assert(insert_ok(s1p, s2)) by {
            if s1p.len() > 0 {
                assert(s1p[s1p.len() - 1] == s1[s1.len() - 1]);
            }
            assert forall|i: int| 0 <= i < s1p.len() && i + 2 >= s1p.len() implies !sep_triple_at(
                #[trigger] (s1p + s2),
                i,
            ) by {
                assert(s1p + s2 =~= b.skip(jb + bl));
                lemma_triple_shift(b, jb + bl, i);
                assert(!sep_triple_at(b, jb + bl + i));
            };
        }
        let lap = split_physical(folded_text(s1p, s2));
        let lbp = split_physical(s1p + s2);
        assert(la.skip(1) =~= lap);
        assert(lb.skip(1) =~= lbp);
        assert(lap.skip(0) =~= lap);
        assert(lbp.skip(0) =~= lbp);
        assert(la.len() > 0 && lb.len() > 0 && la[0] == l && lb[0] == l);
        if is_cont(l) {
            let cur2 = cur + l.drop_first();
            lemma_fold_congr(la, 1, lap, 0, cur2);
            lemma_fold_congr(lb, 1, lbp, 0, cur2);
            lemma_fold_all_insert(s1p, s2, cur2);
        } else {
            lemma_fold_congr(la, 1, lap, 0, l);
            lemma_fold_congr(lb, 1, lbp, 0, l);
            lemma_fold_all_insert(s1p, s2, l);
            assert(fold_from(la, cur, 0) == seq![cur] + fold_from(lap, l, 0));
            assert(fold_from(lb, cur, 0) == seq![cur] + fold_from(lbp, l, 0));
            lemma_nonblank_cons(cur, fold_from(lap, l, 0));
            lemma_nonblank_cons(cur, fold_from(lbp, l, 0));
        }
    } else {
        // No terminator in the left part: the marker itself ends the first
        // marked line, and the space it writes folds the split line back
        // together.
        assert(b.skip(s1.len() as int) =~= s2);
        let m = first_break_from(s2, 0);
        lemma_first_break_from(s2, 0);
        assert forall|j: int| 0 <= j < s1.len() + m implies !is_break_at(b, j) by {
            if j >= s1.len() {
                lemma_break_shift(b, s1.len() as int, j - s1.len());
                assert(!is_break_at(s2, j - s1.len()));
            }
        };
        if m < s2.len() {
            lemma_break_shift(b, s1.len() as int, m);
            assert(is_break_at(b, s1.len() + m));
        } else {
            assert(s1.len() + m == b.len());
        }
        lemma_first_break_exact(b, 0, s1.len() + m);
        assert(jb == s1.len() + m);
        assert(a[s1.len() as int] == LF);
        assert(is_break_at(a, s1.len() as int));
        lemma_first_break_exact(a, 0, s1.len() as int);
        assert(break_len_at(a, s1.len() as int) == 1);
        lemma_split_shift(a, s1.len() as int + 1, 0);
        let t = a.skip(s1.len() as int + 1);
        assert(t =~= seq![SP] + s2);
        assert(t.len() == 1 + s2.len());
        assert(a.subrange(0, s1.len() as int) =~= s1);
        assert(la =~~= seq![s1] + split_physical(t));
        assert(t.skip(1) =~= s2);
        assert(t[0] == SP);
        assert(!is_break_at(t, 0));
        assert forall|j: int| 0 <= j < 1 + m implies !is_break_at(t, j) by {
            if j >= 1 {
                lemma_break_shift(t, 1, j - 1);
                assert(!is_break_at(s2, j - 1));
            }
        };
        if m < s2.len() {
            lemma_break_shift(t, 1, m);
            assert(is_break_at(t, 1 + m));
        } else {
            assert(1 + m == t.len());
        }
        lemma_first_break_exact(t, 0, 1 + m);
        if m == s2.len() {
            assert(first_break_from(t, 0) == t.len());
            assert(split_physical(t) =~~= seq![t]);
            assert(la =~~= seq![s1, t]);
            if b.len() == 0 {
                assert(s1.len() == 0 && s2.len() == 0);
                assert(lb =~~= Seq::<Seq<u8>>::empty());
                assert(t =~= seq![SP]);
                assert(!is_cont(s1));
                assert(is_cont(t));
                assert(t.drop_first() =~= Seq::<u8>::empty());
                assert(fold_from(la, cur, 0) == seq![cur] + fold_from(la, s1, 1));
                assert(fold_from(la, s1, 1) == fold_from(la, s1 + t.drop_first(), 2));
                assert(s1 + t.drop_first() =~= Seq::<u8>::empty());
                assert(fold_from(la, Seq::<u8>::empty(), 2) == seq![Seq::<u8>::empty()]);
                assert(fold_from(lb, cur, 0) == seq![cur]);
                lemma_nonblank_cons(cur, seq![Seq::<u8>::empty()]);
                lemma_nonblank_cons(Seq::empty(), Seq::<Seq<u8>>::empty());
                lemma_nonblank_cons(cur, Seq::<Seq<u8>>::empty());
                assert(seq![cur] + seq![Seq::<u8>::empty()] =~~= fold_from(la, cur, 0));
                assert(nonblank(seq![Seq::<u8>::empty()]) =~~= Seq::<Seq<u8>>::empty());
                assert(nonblank(fold_from(la, cur, 0)) =~~= nonblank(fold_from(lb, cur, 0)));
            } else {
                assert(jb == b.len());
                assert(lb =~~= seq![b]);
                assert(is_cont(t));
                assert(t.drop_first() =~= s2);
                if s1.len() > 0 {
                    assert(b[0] == s1[0]);
                    assert(is_cont(b) == is_cont(s1));
                } else {
                    assert(b =~= s2);
                    assert(!is_cont(b));
                    assert(!is_cont(s1));
                }
                if is_cont(s1) {
                    let cur2 = cur + s1.drop_first();
                    assert(fold_from(la, cur, 0) == fold_from(la, cur2, 1));
                    assert(fold_from(la, cur2, 1) == fold_from(la, cur2 + s2, 2));
                    assert(fold_from(la, cur2 + s2, 2) == seq![cur2 + s2]);
                    assert(fold_from(lb, cur, 0) == fold_from(lb, cur + b.drop_first(), 1));
                    assert(fold_from(lb, cur + b.drop_first(), 1) == seq![cur + b.drop_first()]);
                    assert(cur2 + s2 =~= cur + b.drop_first()) by {
                        assert(b.drop_first() =~= s1.drop_first() + s2);
                    }
                    assert(fold_from(la, cur, 0) =~~= fold_from(lb, cur, 0));
                } else {
                    assert(fold_from(la, cur, 0) == seq![cur] + fold_from(la, s1, 1));
                    assert(fold_from(la, s1, 1) == fold_from(la, s1 + s2, 2));
                    assert(fold_from(la, s1 + s2, 2) == seq![s1 + s2]);
                    assert(fold_from(lb, cur, 0) == seq![cur] + fold_from(lb, b, 1));
                    assert(fold_from(lb, b, 1) == seq![b]);
                    assert(fold_from(la, cur, 0) =~~= fold_from(lb, cur, 0));
                }
            }
        } else {
            let bl2 = break_len_at(s2, m);
            assert(first_break_from(t, 0) == 1 + m);
            assert(break_len_at(t, 1 + m) == bl2) by {
                crate::roundtrip::lemma_break_len_shift(t, 1, m);
            }
            assert(break_len_at(b, s1.len() + m) == bl2) by {
                crate::roundtrip::lemma_break_len_shift(b, s1.len() as int, m);
            }
            assert(m + bl2 <= s2.len());
            let u = s2.subrange(0, m);
            lemma_split_shift(t, 1 + m + bl2, 0);
            lemma_split_shift(b, s1.len() + m + bl2, 0);
            let r = split_physical(s2.skip(m + bl2));
            assert(t.subrange(0, 1 + m) =~= seq![SP] + u);
            assert(t.skip(1 + m + bl2) =~= s2.skip(m + bl2));
            assert(b.subrange(0, s1.len() + m) =~= s1 + u);
            assert(b.skip(s1.len() + m + bl2) =~= s2.skip(m + bl2));
            assert(split_physical(t) =~~= seq![seq![SP] + u] + r);
            assert(la =~~= seq![s1, seq![SP] + u] + r);
            assert(lb =~~= seq![s1 + u] + r);
            assert(la.skip(2) =~= r);
            assert(lb.skip(1) =~= r);
            assert(r.skip(0) =~= r);
            assert(la[0] == s1 && la[1] == seq![SP] + u && lb[0] == s1 + u);
            assert(is_cont(seq![SP] + u));
            assert((seq![SP] + u).drop_first() =~= u);
            if s1.len() > 0 {
                assert((s1 + u)[0] == s1[0]);
                assert(is_cont(s1 + u) == is_cont(s1));
            } else {
                assert(s1 + u =~= u);
                if u.len() > 0 {
                    assert(u[0] == s2[0]);
                    assert(!is_cont(u));
                }
                assert(!is_cont(s1));
                assert(!is_cont(s1 + u));
            }
            if is_cont(s1) {
                let cur2 = cur + s1.drop_first() + u;
                assert(fold_from(la, cur, 0) == fold_from(la, cur + s1.drop_first(), 1));
                assert(fold_from(la, cur + s1.drop_first(), 1) == fold_from(la, cur2, 2));
                lemma_fold_congr(la, 2, r, 0, cur2);
                assert(fold_from(lb, cur, 0) == fold_from(lb, cur + (s1 + u).drop_first(), 1));
                assert(cur + (s1 + u).drop_first() =~= cur2) by {
                    assert((s1 + u).drop_first() =~= s1.drop_first() + u);
                }
                lemma_fold_congr(lb, 1, r, 0, cur2);
                assert(fold_from(la, cur, 0) =~~= fold_from(lb, cur, 0));
            } else {
                let cur2 = s1 + u;
                assert(fold_from(la, cur, 0) == seq![cur] + fold_from(la, s1, 1));
                assert(fold_from(la, s1, 1) == fold_from(la, s1 + u, 2));
                lemma_fold_congr(la, 2, r, 0, cur2);
                assert(fold_from(lb, cur, 0) == seq![cur] + fold_from(lb, s1 + u, 1));
                lemma_fold_congr(lb, 1, r, 0, cur2);
                assert(fold_from(la, cur, 0) =~~= fold_from(lb, cur, 0));
            }
        }
    }
}

/// The folding law: writing a fold marker — newline plus one space — at any
/// permitted point of card text leaves parsing unchanged, so a folded
/// property line reconstructs exactly its unfolded value.
pub proof fn lemma_parse_fold_insensitive(s1: Seq<u8>, s2: Seq<u8>)
    requires
        insert_ok(s1, s2),
    ensures
        spec_parse(folded_text(s1, s2)) == spec_parse(s1 + s2),
{
    let a = folded_text(s1, s2);
    let b = s1 + s2;
    let la = split_physical(a);
    let lb = split_physical(b);
    let d = seq![65u8];
    lemma_fold_all_insert(s1, s2, d);
    if folds_ok(la) {
        lemma_fold_lines_as_all(la, d);
        lemma_fold_lines_as_all(lb, d);
        lemma_nonblank_cons(d, fold_lines(la));
        lemma_nonblank_cons(d, fold_lines(lb));
        let na = nonblank(fold_lines(la));
        let nb = nonblank(fold_lines(lb));
        assert(seq![d] + na == seq![d] + nb);
        assert(na =~~= nb) by {
            assert forall|k: int| 0 <= k < na.len() implies na[k] == nb[k] by {
                assert(na[k] == (seq![d] + na)[k + 1]);
                assert(nb[k] == (seq![d] + nb)[k + 1]);
            }
        }
        assert(spec_parse(a) == spec_parse(b));
    }
}

} // verus!
