//! Adding a score to the text of a score file: the entries already there and
//! the new one are ranked, cut to the requested number, and written out.
use vstd::prelude::*;
use crate::score_entry::{ScoreEntry, ScoreView, entries_view};
use crate::score_file::{ScoreFileError, parse_scores, parsed_scores, format_scores, formatted};
use crate::score_order::{
    enforce_limit, sort_scores, sorted_by_score, with_score, table_sign,
    lemma_score_sign_antisymmetric,
};

verus! {

/// Whether `s` lists the entries of `es` in score order (increasing when
/// `reverse`, else decreasing), entries with the same score in the order they
/// have in `es`.
pub open spec fn is_ranking_of(s: Seq<ScoreView>, es: Seq<ScoreView>, reverse: bool) -> bool {
    &&& sorted_by_score(s, reverse)
    &&& s.to_multiset() == es.to_multiset()
    &&& forall|k: Seq<u8>| with_score(s, k) == with_score(es, k)
}

/// The entries kept of a ranking when at most `max_scores` may stay: the best
/// ones, which come first, or last when `reverse`.
pub open spec fn limited(s: Seq<ScoreView>, max_scores: usize, reverse: bool) -> Seq<ScoreView> {
    if max_scores >= s.len() {
        s
    } else if reverse {
        s.subrange(s.len() - max_scores, s.len() as int)
    } else {
        s.subrange(0, max_scores as int)
    }
}

/// The new text of the score file `data` once `entry` is added; an error when
/// `data` cannot be read as a score file.
pub fn add_score(data: &[u8], entry: ScoreEntry, reverse: bool, max_scores: usize) -> (r: Result<
    Vec<u8>,
    ScoreFileError,
>)
    ensures
        match parsed_scores(data@) {
            None => r is Err,
            Some(es) => match r {
                Ok(out) => exists|s: Seq<ScoreView>|
                    is_ranking_of(s, es.push(entry@), reverse) && out@ == formatted(
                        #[trigger] limited(s, max_scores, reverse),
                    ),
                Err(_) => false,
            },
        },
{
    let mut scores = match parse_scores(data) {
        Ok(scores) => scores,
        Err(e) => {
            return Err(e);
        },
    };
    let ghost ev = entry@;
    let ghost es = entries_view(scores@);
    scores.push(entry);
    let ghost pushed = entries_view(scores@);
    assert(pushed =~= entries_view(scores@.drop_last()).push(ev));
    sort_scores(&mut scores, reverse);
    let ghost ranked = entries_view(scores@);
    let ghost ranked_entries = scores@;
    enforce_limit(&mut scores, max_scores, reverse);
    proof {
        if max_scores < ranked_entries.len() {
            if reverse {
                assert(entries_view(scores@) =~= ranked.subrange(
                    ranked.len() - max_scores,
                    ranked.len() as int,
                ));
            } else {
                assert(entries_view(scores@) =~= ranked.subrange(0, max_scores as int));
            }
        }
        assert(entries_view(scores@) == limited(ranked, max_scores, reverse));
    }
    let out = format_scores(&scores);
    assert(pushed == es.push(ev));
    assert(is_ranking_of(ranked, es.push(ev), reverse));
    assert(out@ == formatted(limited(ranked, max_scores, reverse)));
    Ok(out)
}

/// The entries of `s` with score `k`, split at the first entry of `s`.
proof fn lemma_with_score_first(s: Seq<ScoreView>, k: Seq<u8>)
    requires
        s.len() > 0,
    ensures
        with_score(s, k) == (if s[0].score == k {
            seq![s[0]] + with_score(s.drop_first(), k)
        } else {
            with_score(s.drop_first(), k)
        }),
{
    broadcast use Seq::filter_distributes_over_add;

    assert(s =~= seq![s[0]] + s.drop_first());
    assert(seq![s[0]].drop_last() =~= Seq::<ScoreView>::empty());
    reveal_with_fuel(Seq::filter, 2);
    assert(with_score(s, k) == with_score(seq![s[0]], k) + with_score(s.drop_first(), k));
    if s[0].score == k {
        assert(with_score(seq![s[0]], k) =~= seq![s[0]]);
    } else {
        assert(with_score(seq![s[0]], k) =~= Seq::<ScoreView>::empty());
        assert(Seq::<ScoreView>::empty() + with_score(s.drop_first(), k) =~= with_score(
            s.drop_first(),
            k,
        ));
    }
}

/// An entry with score `k` is in `s` when `with_score(s, k)` is not empty.
proof fn lemma_with_score_witness(s: Seq<ScoreView>, k: Seq<u8>) -> (j: int)
    requires
        with_score(s, k).len() > 0,
    ensures
        0 <= j < s.len(),
        s[j].score == k,
    decreases s.len(),
{
    if s.len() == 0 {
        assert(with_score(s, k) =~= Seq::<ScoreView>::empty());
        0
    } else {
        lemma_with_score_first(s, k);
        if s[0].score == k {
            0
        } else {
            let j = lemma_with_score_witness(s.drop_first(), k);
            j + 1
        }
    }
}

/// Two sequences in score order with the same entries for every score are
/// the same.
proof fn lemma_sorted_groups_determine(s1: Seq<ScoreView>, s2: Seq<ScoreView>, reverse: bool)
    requires
        sorted_by_score(s1, reverse),
        sorted_by_score(s2, reverse),
        forall|k: Seq<u8>| with_score(s1, k) == with_score(s2, k),
    ensures
        s1 == s2,
    decreases s1.len() + s2.len(),
{
    if s1.len() == 0 || s2.len() == 0 {
        if s1.len() > 0 {
            lemma_with_score_first(s1, s1[0].score);
            let j = lemma_with_score_witness(s2, s1[0].score);
        } else if s2.len() > 0 {
            lemma_with_score_first(s2, s2[0].score);
            let j = lemma_with_score_witness(s1, s2[0].score);
        }
        assert(s1 =~= s2);
    } else {
        let a1 = s1[0];
        let a2 = s2[0];
        lemma_with_score_first(s1, a1.score);
        lemma_with_score_first(s2, a1.score);
        lemma_with_score_first(s1, a2.score);
        lemma_with_score_first(s2, a2.score);
        if a1.score != a2.score {
            let j2 = lemma_with_score_witness(s2, a1.score);
            let j1 = lemma_with_score_witness(s1, a2.score);
            assert(table_sign(s2[0], s2[j2], reverse) <= 0);
            assert(table_sign(s1[0], s1[j1], reverse) <= 0);
            lemma_score_sign_antisymmetric(a1.score, a2.score);
            assert(false);
        }
        let k = a1.score;
        assert(with_score(s1, k)[0] == a1);
        assert(with_score(s2, k)[0] == a2);
        let t1 = s1.drop_first();
        let t2 = s2.drop_first();
        assert forall|kk: Seq<u8>| with_score(t1, kk) == with_score(t2, kk) by {
            lemma_with_score_first(s1, kk);
            lemma_with_score_first(s2, kk);
            if kk == k {
                assert(with_score(t1, kk) =~= with_score(s1, kk).drop_first());
                assert(with_score(t2, kk) =~= with_score(s2, kk).drop_first());
            }
        }
        assert(sorted_by_score(t1, reverse)) by {
            assert forall|i: int, j: int| 0 <= i < j < t1.len() implies table_sign(
                t1[i],
                t1[j],
                reverse,
            ) <= 0 by {
                assert(t1[i] == s1[i + 1] && t1[j] == s1[j + 1]);
            }
        }
        assert(sorted_by_score(t2, reverse)) by {
            assert forall|i: int, j: int| 0 <= i < j < t2.len() implies table_sign(
                t2[i],
                t2[j],
                reverse,
            ) <= 0 by {
                assert(t2[i] == s2[i + 1] && t2[j] == s2[j + 1]);
            }
        }
        lemma_sorted_groups_determine(t1, t2, reverse);
        assert(s1 =~= seq![a1] + t1);
        assert(s2 =~= seq![a2] + t2);
    }
}

/// A ranking is fixed by what it ranks: two rankings of the same entries are
/// the same sequence, so the text `add_score` writes is determined.
pub proof fn lemma_ranking_unique(
    s1: Seq<ScoreView>,
    s2: Seq<ScoreView>,
    es: Seq<ScoreView>,
    reverse: bool,
)
    requires
        is_ranking_of(s1, es, reverse),
        is_ranking_of(s2, es, reverse),
    ensures
        s1 == s2,
{
    lemma_sorted_groups_determine(s1, s2, reverse);
}

} // verus!
