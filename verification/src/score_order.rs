//! The order of a score table: best score first, ties kept in the order in
//! which they were recorded, and the limit on the table's length.
use vstd::prelude::*;
use std::cmp::Ordering;
use crate::score_entry::{ScoreEntry, ScoreView, entries_view};

verus! {

/// Whether a score is written with a leading minus sign.
pub open spec fn is_negative(s: Seq<u8>) -> bool {
    s.len() > 0 && s[0] == 45u8
}

/// Byte-wise lexicographic comparison: -1, 0 or 1 as `a` sorts before, equal
/// to or after `b`.
pub open spec fn lex_sign(a: Seq<u8>, b: Seq<u8>) -> int
    decreases a.len(),
{
    if a.len() == 0 {
        if b.len() == 0 {
            0
        } else {
            -1
        }
    } else if b.len() == 0 {
        1
    } else if a[0] < b[0] {
        -1
    } else if a[0] > b[0] {
        1
    } else {
        lex_sign(a.drop_first(), b.drop_first())
    }
}

/// Where score `a` stands against score `b` in a table: -1 when `a` comes
/// first, 1 when `b` does, 0 when the two are the same text. Scores without a
/// sign come before negative ones; among those without a sign the longer
/// comes first and, at equal length, the one that is greater byte-wise;
/// among negative ones the shorter comes first and, at equal length, the one
/// that is smaller byte-wise. On scores in canonical form this puts the
/// greater number first (see `lemma_score_sign_numeric`).
pub open spec fn score_sign(a: Seq<u8>, b: Seq<u8>) -> int {
    if is_negative(a) != is_negative(b) {
        if is_negative(a) {
            1
        } else {
            -1
        }
    } else if is_negative(a) {
        let x = b.drop_first();
        let y = a.drop_first();
        if x.len() != y.len() {
            if y.len() < x.len() {
                -1
            } else {
                1
            }
        } else {
            lex_sign(y, x)
        }
    } else {
        if a.len() != b.len() {
            if b.len() < a.len() {
                -1
            } else {
                1
            }
        } else {
            lex_sign(b, a)
        }
    }
}

/// A sign as an `Ordering`.
pub open spec fn ordering_from_sign(sign: int) -> Ordering {
    if sign < 0 {
        Ordering::Less
    } else if sign == 0 {
        Ordering::Equal
    } else {
        Ordering::Greater
    }
}

/// Where score `a` stands against score `b`, as an `Ordering`.
pub open spec fn score_order(a: Seq<u8>, b: Seq<u8>) -> Ordering {
    ordering_from_sign(score_sign(a, b))
}

/// Lexicographic comparison of `a` from `ia` on and `b` from `ib` on.
fn lex_sign_from(a: &[u8], ia: usize, b: &[u8], ib: usize) -> (r: i8)
    requires
        ia <= a@.len(),
        ib <= b@.len(),
    ensures
        r == lex_sign(a@.skip(ia as int), b@.skip(ib as int)),
{
    let mut i = ia;
    let mut j = ib;
    while i < a.len() && j < b.len()
        invariant
            ia <= i <= a@.len(),
            ib <= j <= b@.len(),
            i - ia == j - ib,
            lex_sign(a@.skip(ia as int), b@.skip(ib as int)) == lex_sign(
                a@.skip(i as int),
                b@.skip(j as int),
            ),
        decreases a@.len() - i,
    {
        if a[i] < b[j] {
            return -1;
        }
        if a[i] > b[j] {
            return 1;
        }
        assert(a@.skip(i as int).drop_first() =~= a@.skip(i + 1));
        assert(b@.skip(j as int).drop_first() =~= b@.skip(j + 1));
        i = i + 1;
        j = j + 1;
    }
    if i < a.len() {
        1
    } else if j < b.len() {
        -1
    } else {
        0
    }
}

/// `score_sign` of two scores.
pub fn score_sign_exec(a: &[u8], b: &[u8]) -> (r: i8)
    ensures
        r == score_sign(a@, b@),
{
    let nega = a.len() > 0 && a[0] == 45u8;
    let negb = b.len() > 0 && b[0] == 45u8;
    if nega != negb {
        if nega {
            1
        } else {
            -1
        }
    } else if nega {
        let lx = b.len() - 1;
        let ly = a.len() - 1;
        if lx != ly {
            if ly < lx {
                -1
            } else {
                1
            }
        } else {
            assert(a@.skip(1) =~= a@.drop_first());
            assert(b@.skip(1) =~= b@.drop_first());
            lex_sign_from(a, 1, b, 1)
        }
    } else {
        if a.len() != b.len() {
            if b.len() < a.len() {
                -1
            } else {
                1
            }
        } else {
            assert(a@.skip(0) =~= a@);
            assert(b@.skip(0) =~= b@);
            lex_sign_from(b, 0, a, 0)
        }
    }
}

/// Compares two entries by score: `Less` when `a` belongs before `b` in a
/// table, `Equal` when their scores are the same text.
pub fn compare_scores(a: &ScoreEntry, b: &ScoreEntry) -> (r: Ordering)
    ensures
        r == score_order(a.score@, b.score@),
{
    let s = score_sign_exec(a.score.as_slice(), b.score.as_slice());
    if s < 0 {
        Ordering::Less
    } else if s == 0 {
        Ordering::Equal
    } else {
        Ordering::Greater
    }
}

/// Lexicographic comparison is antisymmetric, and 0 exactly on equal
/// sequences.
pub proof fn lemma_lex_sign_antisymmetric(a: Seq<u8>, b: Seq<u8>)
    ensures
        lex_sign(a, b) == -lex_sign(b, a),
        -1 <= lex_sign(a, b) <= 1,
        lex_sign(a, b) == 0 <==> a == b,
    decreases a.len(),
{
    if a.len() > 0 && b.len() > 0 && a[0] == b[0] {
        lemma_lex_sign_antisymmetric(a.drop_first(), b.drop_first());
        if a.drop_first() == b.drop_first() {
            assert(a =~= seq![a[0]] + a.drop_first());
            assert(b =~= seq![b[0]] + b.drop_first());
        }
    }
    if a.len() == 0 && b.len() == 0 {
        assert(a =~= b);
    }
}

/// Lexicographic comparison is transitive.
pub proof fn lemma_lex_sign_transitive(a: Seq<u8>, b: Seq<u8>, c: Seq<u8>)
    requires
        lex_sign(a, b) <= 0,
        lex_sign(b, c) <= 0,
    ensures
        lex_sign(a, c) <= 0,
    decreases a.len(),
{
    if a.len() > 0 && b.len() > 0 && c.len() > 0 && a[0] == b[0] && b[0] == c[0] {
        lemma_lex_sign_transitive(a.drop_first(), b.drop_first(), c.drop_first());
    }
}

/// The score order is antisymmetric, and places two scores level exactly
/// when they are the same text.
pub proof fn lemma_score_sign_antisymmetric(a: Seq<u8>, b: Seq<u8>)
    ensures
        score_sign(a, b) == -score_sign(b, a),
        -1 <= score_sign(a, b) <= 1,
        score_sign(a, b) == 0 <==> a == b,
{
    lemma_lex_sign_antisymmetric(a, b);
    lemma_lex_sign_antisymmetric(b, a);
    lemma_lex_sign_antisymmetric(a.drop_first(), b.drop_first());
    lemma_lex_sign_antisymmetric(b.drop_first(), a.drop_first());
    if is_negative(a) && is_negative(b) && a.drop_first() == b.drop_first() {
        assert(a =~= seq![a[0]] + a.drop_first());
        assert(b =~= seq![b[0]] + b.drop_first());
    }
}

/// The score order is transitive.
pub proof fn lemma_score_sign_transitive(a: Seq<u8>, b: Seq<u8>, c: Seq<u8>)
    requires
        score_sign(a, b) <= 0,
        score_sign(b, c) <= 0,
    ensures
        score_sign(a, c) <= 0,
{
    if is_negative(a) == is_negative(b) && is_negative(b) == is_negative(c) {
        if is_negative(a) {
            let (ta, tb, tc) = (a.drop_first(), b.drop_first(), c.drop_first());
            if ta.len() == tb.len() && tb.len() == tc.len() {
                lemma_lex_sign_transitive(ta, tb, tc);
            }
        } else {
            if a.len() == b.len() && b.len() == c.len() {
                lemma_lex_sign_transitive(c, b, a);
            }
        }
    }
}

/// `compare_scores` agrees with itself with the arguments swapped: a total
/// order in which only equal texts are level.
pub proof fn lemma_score_order_laws(a: Seq<u8>, b: Seq<u8>, c: Seq<u8>)
    ensures
        score_order(a, b) == Ordering::Equal <==> a == b,
        score_order(a, b) == Ordering::Less <==> score_order(b, a) == Ordering::Greater,
        score_order(a, b) != Ordering::Greater && score_order(b, c) != Ordering::Greater
            ==> score_order(a, c) != Ordering::Greater,
{
    lemma_score_sign_antisymmetric(a, b);
    if score_sign(a, b) <= 0 && score_sign(b, c) <= 0 {
        lemma_score_sign_transitive(a, b, c);
    }
}

/// The table order: by score, best first, or worst first when `reverse`.
pub open spec fn table_sign(a: ScoreView, b: ScoreView, reverse: bool) -> int {
    if reverse {
        score_sign(b.score, a.score)
    } else {
        score_sign(a.score, b.score)
    }
}

/// Whether a table is in order.
pub open spec fn sorted_by_score(s: Seq<ScoreView>, reverse: bool) -> bool {
    forall|i: int, j: int| 0 <= i < j < s.len() ==> table_sign(s[i], s[j], reverse) <= 0
}

/// The entries of a table that have score `k`, in table order.
pub open spec fn with_score(s: Seq<ScoreView>, k: Seq<u8>) -> Seq<ScoreView> {
    s.filter(|e: ScoreView| e.score == k)
}

proof fn lemma_table_sign(a: ScoreView, b: ScoreView, c: ScoreView, reverse: bool)
    ensures
        table_sign(a, b, reverse) == -table_sign(b, a, reverse),
        table_sign(a, b, reverse) == 0 <==> a.score == b.score,
        table_sign(a, b, reverse) <= 0 && table_sign(b, c, reverse) <= 0 ==> table_sign(
            a,
            c,
            reverse,
        ) <= 0,
{
    lemma_score_sign_antisymmetric(a.score, b.score);
    if table_sign(a, b, reverse) <= 0 && table_sign(b, c, reverse) <= 0 {
        if reverse {
            lemma_score_sign_transitive(c.score, b.score, a.score);
        } else {
            lemma_score_sign_transitive(a.score, b.score, c.score);
        }
    }
}

proof fn lemma_filter_insert(s: Seq<ScoreView>, p: int, x: ScoreView, k: Seq<u8>)
    requires
        0 <= p <= s.len(),
    ensures
        with_score(s.insert(p, x), k) == with_score(s.subrange(0, p), k) + with_score(
            seq![x],
            k,
        ) + with_score(s.subrange(p, s.len() as int), k),
        with_score(s, k) == with_score(s.subrange(0, p), k) + with_score(
            s.subrange(p, s.len() as int),
            k,
        ),
{
    let pred = |e: ScoreView| e.score == k;
    let a = s.subrange(0, p);
    let b = s.subrange(p, s.len() as int);
    assert(s.insert(p, x) =~= a + seq![x] + b);
    assert(s =~= a + b);
    Seq::filter_distributes_over_add(a + seq![x], b, pred);
    Seq::filter_distributes_over_add(a, seq![x], pred);
    Seq::filter_distributes_over_add(a, b, pred);
}

proof fn lemma_filter_none(s: Seq<ScoreView>, k: Seq<u8>)
    requires
        forall|i: int| 0 <= i < s.len() ==> s[i].score != k,
    ensures
        with_score(s, k) == Seq::<ScoreView>::empty(),
    decreases s.len(),
{
    let pred = |e: ScoreView| e.score == k;
    if s.len() > 0 {
        lemma_filter_none(s.drop_last(), k);
        assert(s.drop_last().push(s.last()) =~= s);
        s.drop_last().lemma_filter_push(s.last(), pred);
    }
}

/// Sorts a table, best score first, or worst first when `reverse`. The sort
/// is stable: entries with the same score keep their relative order.
pub fn sort_scores(scores: &mut Vec<ScoreEntry>, reverse: bool)
    ensures
        sorted_by_score(entries_view(final(scores)@), reverse),
        entries_view(final(scores)@).to_multiset() == entries_view(old(scores)@).to_multiset(),
        forall|k: Seq<u8>|
            with_score(entries_view(final(scores)@), k) == with_score(
                entries_view(old(scores)@),
                k,
            ),
{
    let ghost input = entries_view(scores@);
    let ghost n = input.len();
    let mut src: Vec<ScoreEntry> = Vec::new();
    std::mem::swap(scores, &mut src);
    let mut res: Vec<ScoreEntry> = Vec::new();
    proof {
        assert(entries_view(src@) =~= input.subrange(0, n as int));
        assert(entries_view(res@) =~= input.subrange(n as int, n as int));
    }
    while src.len() > 0
        invariant
            n == input.len(),
            src@.len() <= n,
            entries_view(src@) == input.subrange(0, src@.len() as int),
            sorted_by_score(entries_view(res@), reverse),
            entries_view(res@).to_multiset() == input.subrange(
                src@.len() as int,
                n as int,
            ).to_multiset(),
            forall|k: Seq<u8>|
                with_score(entries_view(res@), k) == with_score(
                    input.subrange(src@.len() as int, n as int),
                    k,
                ),
        decreases src@.len(),
    {
        let ghost kk = src@.len() as int;
        let ghost rv = entries_view(res@);
        let ghost src_before = src@;
        let x = src.pop().unwrap();
        let ghost xv = x@;
        assert(xv == input[kk - 1]) by {
            assert(entries_view(src_before)[kk - 1] == xv);
        }
        assert(entries_view(src@) =~= input.subrange(0, kk - 1));
        let mut p: usize = 0;
        while p < res.len()
            invariant_except_break
                p <= res@.len(),
                rv == entries_view(res@),
                xv == x@,
                forall|i: int| 0 <= i < p ==> table_sign(rv[i], xv, reverse) < 0,
            ensures
                p <= res@.len(),
                rv == entries_view(res@),
                forall|i: int| 0 <= i < p ==> table_sign(rv[i], xv, reverse) < 0,
                p < res@.len() ==> table_sign(rv[p as int], xv, reverse) >= 0,
            decreases res@.len() - p,
        {
            assert(rv[p as int] == res@[p as int]@);
            let s = if reverse {
                score_sign_exec(x.score.as_slice(), res[p].score.as_slice())
            } else {
                score_sign_exec(res[p].score.as_slice(), x.score.as_slice())
            };
            if s >= 0 {
                break;
            }
            p = p + 1;
        }
        let ghost rest = input.subrange(kk, n as int);
        proof {
            assert(input.subrange(kk - 1, n as int) =~= seq![xv] + rest);
            assert(p < rv.len() ==> table_sign(rv[p as int], xv, reverse) >= 0);
        }
        res.insert(p, x);
        proof {
            let nv = entries_view(res@);
            assert(nv =~= rv.insert(p as int, xv));
            // sorted
            assert forall|i: int, j: int| 0 <= i < j < nv.len() implies table_sign(
                nv[i],
                nv[j],
                reverse,
            ) <= 0 by {
                if i < p {
                    assert(nv[i] == rv[i]);
                }
                if i > p {
                    assert(nv[i] == rv[i - 1]);
                }
                if j > p {
                    assert(nv[j] == rv[j - 1]);
                }
                if j < p {
                    assert(nv[j] == rv[j]);
                    assert(table_sign(rv[i], rv[j], reverse) <= 0);
                } else if i < p && j == p {
                } else if i < p && j > p {
                    lemma_table_sign(rv[i], xv, rv[j - 1], reverse);
                    lemma_table_sign(rv[i], rv[p as int], rv[j - 1], reverse);
                    assert(table_sign(rv[i], rv[j - 1], reverse) <= 0);
                } else if i == p {
                    lemma_table_sign(xv, rv[p as int], rv[j - 1], reverse);
                    lemma_table_sign(rv[p as int], xv, rv[j - 1], reverse);
                    if j - 1 > p {
                        assert(table_sign(rv[p as int], rv[j - 1], reverse) <= 0);
                    }
                } else {
                    assert(table_sign(rv[i - 1], rv[j - 1], reverse) <= 0);
                }
            }
            // permutation
            vstd::seq_lib::to_multiset_insert(rv, p as int, xv);
            assert((seq![xv] + rest).to_multiset() =~= rest.to_multiset().insert(xv)) by {
                assert(seq![xv] + rest =~= rest.insert(0, xv));
                vstd::seq_lib::to_multiset_insert(rest, 0, xv);
            }
            // stability
            assert forall|k: Seq<u8>| with_score(nv, k) == with_score(seq![xv] + rest, k) by {
                let pred = |e: ScoreView| e.score == k;
                lemma_filter_insert(rv, p as int, xv, k);
                Seq::filter_distributes_over_add(seq![xv], rest, pred);
                let before = rv.subrange(0, p as int);
                if xv.score == k {
                    assert forall|i: int| 0 <= i < before.len() implies before[i].score != k by {
                        lemma_table_sign(rv[i], xv, xv, reverse);
                    }
                    lemma_filter_none(before, k);
                    assert(with_score(nv, k) =~= with_score(seq![xv], k) + with_score(
                        rv.subrange(p as int, rv.len() as int),
                        k,
                    ));
                } else {
                    assert(with_score(seq![xv], k) =~= Seq::<ScoreView>::empty()) by {
                        lemma_filter_none(seq![xv], k);
                    }
                    assert(with_score(nv, k) =~= with_score(rv, k));
                }
            }
        }
    }
    proof {
        assert(input.subrange(0, n as int) =~= input);
    }
    *scores = res;
}

/// Keeps at most `max_scores` entries of a sorted table: the first ones, or
/// the last ones when `reverse` (the best scores either way).
pub fn enforce_limit(scores: &mut Vec<ScoreEntry>, max_scores: usize, reverse: bool)
    ensures
        max_scores >= old(scores)@.len() ==> final(scores)@ == old(scores)@,
        max_scores < old(scores)@.len() && reverse ==> final(scores)@ == old(scores)@.subrange(
            old(scores)@.len() - max_scores,
            old(scores)@.len() as int,
        ),
        max_scores < old(scores)@.len() && !reverse ==> final(scores)@ == old(
            scores,
        )@.subrange(0, max_scores as int),
{
    if max_scores >= scores.len() {
        return;
    }
    if reverse {
        let remove = scores.len() - max_scores;
        let kept = scores.split_off(remove);
        *scores = kept;
    } else {
        scores.truncate(max_scores);
    }
}

} // verus!
