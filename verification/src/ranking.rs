//! Ranking of indices by score, highest first.
use vstd::prelude::*;
use vstd::set_lib::{lemma_int_range, lemma_subset_equality, set_int_range};

verus! {

/// Whether index `i` ranks before index `j`: by higher score, and by place among equals.
pub open spec fn ranks_before(scores: Seq<i64>, i: int, j: int) -> bool {
    scores[i] > scores[j] || (scores[i] == scores[j] && i < j)
}

/// Whether `order` lists indices by rank.
pub open spec fn by_rank(scores: Seq<i64>, order: Seq<usize>) -> bool {
    forall|p: int, q: int|
        0 <= p < q < order.len() ==> ranks_before(
            scores,
            #[trigger] order[p] as int,
            #[trigger] order[q] as int,
        )
}

/// Whether `order` is the ranking of all scores.
pub open spec fn is_ranking(scores: Seq<i64>, order: Seq<usize>) -> bool {
    &&& order.len() == scores.len()
    &&& forall|p: int| 0 <= p < order.len() ==> #[trigger] order[p] < scores.len()
    &&& by_rank(scores, order)
}

/// A ranking lists every index.
pub proof fn ranking_covers(scores: Seq<i64>, order: Seq<usize>, i: int)
    requires
        is_ranking(scores, order),
        0 <= i < scores.len(),
    ensures
        exists|p: int| 0 <= p < order.len() && #[trigger] order[p] == i,
{
    let wide = order.map_values(|x: usize| x as int);
    assert(wide.no_duplicates()) by {
        assert forall|p: int, q: int| 0 <= p < wide.len() && 0 <= q < wide.len() && p != q implies
            wide[p] != wide[q] by {
            if p < q {
                assert(ranks_before(scores, order[p] as int, order[q] as int));
            } else {
                assert(ranks_before(scores, order[q] as int, order[p] as int));
            }
        }
    }
    wide.unique_seq_to_set();
    lemma_int_range(0, scores.len() as int);
    assert(wide.to_set().subset_of(set_int_range(0, scores.len() as int))) by {
        assert forall|x: int| wide.to_set().contains(x) implies set_int_range(
            0,
            scores.len() as int,
        ).contains(x) by {
            let p = choose|p: int| 0 <= p < wide.len() && wide[p] == x;
            assert(order[p] < scores.len());
        }
    }
    lemma_subset_equality(wide.to_set(), set_int_range(0, scores.len() as int));
    assert(wide.to_set().contains(i));
    let p = choose|p: int| 0 <= p < wide.len() && wide[p] == i;
    assert(order[p] == i);
}

/// There is one ranking only.
pub proof fn ranking_is_unique(scores: Seq<i64>, a: Seq<usize>, b: Seq<usize>)
    requires
        is_ranking(scores, a),
        is_ranking(scores, b),
    ensures
        a == b,
{
    assert forall|p: int| 0 <= p < a.len() implies a[p] == b[p] by {
        same_up_to(scores, a, b, p + 1);
    }
    assert(a =~= b);
}

proof fn same_up_to(scores: Seq<i64>, a: Seq<usize>, b: Seq<usize>, n: int)
    requires
        is_ranking(scores, a),
        is_ranking(scores, b),
        0 <= n <= a.len(),
    ensures
        forall|p: int| 0 <= p < n ==> a[p] == b[p],
    decreases n,
{
    if n > 0 {
        same_up_to(scores, a, b, n - 1);
        let p = n - 1;
        ranking_covers(scores, b, a[p] as int);
        ranking_covers(scores, a, b[p] as int);
        let q = choose|q: int| 0 <= q < b.len() && #[trigger] b[q] == a[p];
        let r = choose|r: int| 0 <= r < a.len() && #[trigger] a[r] == b[p];
        if q < p {
            assert(a[q] == b[q]);
            assert(ranks_before(scores, a[q] as int, a[p] as int));
        } else if q > p {
            if r < p {
                assert(a[r] == b[r]);
                assert(ranks_before(scores, b[r] as int, b[p] as int));
            } else if r > p {
                assert(ranks_before(scores, b[p] as int, b[q] as int));
                assert(ranks_before(scores, a[p] as int, a[r] as int));
            }
        }
    }
}

/// Whether two lists of scores compare alike.
pub open spec fn same_order(a: Seq<i64>, b: Seq<i64>) -> bool {
    &&& a.len() == b.len()
    &&& forall|i: int, j: int|
        0 <= i < a.len() && 0 <= j < a.len() ==> (#[trigger] a[i] < #[trigger] a[j] <==> b[i] < b[j])
}

/// Scores that compare alike rank alike.
pub proof fn ranking_depends_on_order_only(a: Seq<i64>, b: Seq<i64>, order: Seq<usize>)
    requires
        same_order(a, b),
        is_ranking(a, order),
    ensures
        is_ranking(b, order),
{
    assert forall|p: int, q: int| 0 <= p < q < order.len() implies ranks_before(
        b,
        #[trigger] order[p] as int,
        #[trigger] order[q] as int,
    ) by {
        let i = order[p] as int;
        let j = order[q] as int;
        assert(order[p] < a.len() && order[q] < a.len());
        assert(ranks_before(a, i, j));
        assert(a[i] < a[j] <==> b[i] < b[j]);
        assert(a[j] < a[i] <==> b[j] < b[i]);
    }
}

/// Merges two runs by rank; every index of `a` is lower than every index of `b`.
fn merge_runs(scores: &[i64], a: &Vec<usize>, b: &Vec<usize>, lo: usize, mid: usize, hi: usize) -> (r:
    Vec<usize>)
    requires
        lo <= mid <= hi <= scores@.len(),
        a@.len() == mid - lo,
        b@.len() == hi - mid,
        by_rank(scores@, a@),
        by_rank(scores@, b@),
        forall|p: int| 0 <= p < a@.len() ==> lo <= #[trigger] a@[p] < mid,
        forall|p: int| 0 <= p < b@.len() ==> mid <= #[trigger] b@[p] < hi,
    ensures
        r@.len() == hi - lo,
        by_rank(scores@, r@),
        forall|p: int| 0 <= p < r@.len() ==> lo <= #[trigger] r@[p] < hi,
{
    let mut out: Vec<usize> = Vec::new();
    let mut i: usize = 0;
    let mut j: usize = 0;
    while i < a.len() || j < b.len()
        invariant
            lo <= mid <= hi <= scores@.len(),
            a@.len() == mid - lo,
            b@.len() == hi - mid,
            by_rank(scores@, a@),
            by_rank(scores@, b@),
            forall|p: int| 0 <= p < a@.len() ==> lo <= #[trigger] a@[p] < mid,
            forall|p: int| 0 <= p < b@.len() ==> mid <= #[trigger] b@[p] < hi,
            i <= a@.len(),
            j <= b@.len(),
            out@.len() == i + j,
            by_rank(scores@, out@),
            forall|p: int| 0 <= p < out@.len() ==> lo <= #[trigger] out@[p] < hi,
            forall|p: int, q: int|
                0 <= p < out@.len() && i <= q < a@.len() ==> ranks_before(
                    scores@,
                    #[trigger] out@[p] as int,
                    #[trigger] a@[q] as int,
                ),
            forall|p: int, q: int|
                0 <= p < out@.len() && j <= q < b@.len() ==> ranks_before(
                    scores@,
                    #[trigger] out@[p] as int,
                    #[trigger] b@[q] as int,
                ),
        decreases a@.len() - i + b@.len() - j,
    {
        let from_a: bool = if i == a.len() {
            false
        } else if j == b.len() {
            true
        } else {
            scores[a[i]] >= scores[b[j]]
        };
        let ghost before = out@;
        if from_a {
            out.push(a[i]);
            assert forall|q: int| j <= q < b@.len() implies ranks_before(
                scores@,
                a@[i as int] as int,
                #[trigger] b@[q] as int,
            ) by {
                assert(a@[i as int] < mid && mid <= b@[j as int]);
                if q > j {
                    assert(ranks_before(scores@, b@[j as int] as int, b@[q] as int));
                }
            }
            i = i + 1;
        } else {
            out.push(b[j]);
            assert forall|q: int| i <= q < a@.len() implies ranks_before(
                scores@,
                b@[j as int] as int,
                #[trigger] a@[q] as int,
            ) by {
                if q > i {
                    assert(ranks_before(scores@, a@[i as int] as int, a@[q] as int));
                }
            }
            j = j + 1;
        }
        assert forall|p: int, q: int| 0 <= p < q < out@.len() implies ranks_before(
            scores@,
            #[trigger] out@[p] as int,
            #[trigger] out@[q] as int,
        ) by {
            assert(out@[p] == before[p]);
            if q < before.len() {
                assert(out@[q] == before[q]);
            }
        }
    }
    out
}

/// The indices `lo..hi` by rank.
fn rank_range(scores: &[i64], lo: usize, hi: usize) -> (r: Vec<usize>)
    requires
        lo <= hi <= scores@.len(),
    ensures
        r@.len() == hi - lo,
        by_rank(scores@, r@),
        forall|p: int| 0 <= p < r@.len() ==> lo <= #[trigger] r@[p] < hi,
    decreases hi - lo,
{
    if hi - lo <= 1 {
        let mut out: Vec<usize> = Vec::new();
        if lo < hi {
            out.push(lo);
        }
        return out;
    }
    let mid: usize = lo + (hi - lo) / 2;
    let a: Vec<usize> = rank_range(scores, lo, mid);
    let b: Vec<usize> = rank_range(scores, mid, hi);
    merge_runs(scores, &a, &b, lo, mid, hi)
}

/// All indices by rank: highest score first, equal scores in their own order.
pub fn rank_by_score(scores: &[i64]) -> (r: Vec<usize>)
    ensures
        is_ranking(scores@, r@),
{
    rank_range(scores, 0, scores.len())
}

/// A ranking lists higher scores first, and equal scores in their own order.
pub proof fn rankings_fall(scores: Seq<i64>, order: Seq<usize>, p: int, q: int)
    requires
        is_ranking(scores, order),
        0 <= p < q < order.len(),
    ensures
        order.len() == scores.len(),
        order[p] < scores.len() && order[q] < scores.len(),
        scores[order[p] as int] > scores[order[q] as int] || (scores[order[p] as int]
            == scores[order[q] as int] && order[p] < order[q]),
{
    assert(ranks_before(scores, order[p] as int, order[q] as int));
}

/// Every arrangement of all indices by falling score, equal scores in their own order, is a
/// ranking.
pub proof fn falling_arrangements_are_rankings(scores: Seq<i64>, order: Seq<usize>)
    requires
        order.len() == scores.len(),
        forall|p: int| 0 <= p < order.len() ==> #[trigger] order[p] < scores.len(),
        forall|p: int, q: int|
            0 <= p < q < order.len() ==> scores[#[trigger] order[p] as int] > scores[
                #[trigger] order[q] as int] || (scores[order[p] as int] == scores[order[q] as int]
                && order[p] < order[q]),
    ensures
        is_ranking(scores, order),
{
}

} // verus!
