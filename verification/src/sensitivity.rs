//! Per-layer sensitivity scores.
use crate::ranking::{is_ranking, rank_by_score, ranking_covers, rankings_fall};
use vstd::prelude::*;
use vstd::seq_lib::{to_multiset_build, to_multiset_insert};

verus! {

/// Sensitivity of one linear layer.
///
/// Scores and traces are whole numbers of any fixed unit that keeps zero at zero. Ranking
/// compares them, the knapsack solver also adds scores up.
#[derive(Debug)]
pub struct LayerSensitivity {
    /// Module path, such as `model.layers.5.mlp.gate_proj`.
    pub name: String,
    /// Sensitivity score; higher means more sensitive.
    pub score: i64,
    /// Empirical Fisher diagonal trace; zero where there is none.
    pub fisher_trace: i64,
    /// Number of parameters of the layer.
    pub n_params: usize,
}

/// Normalized Frobenius norm of one weight tensor.
#[derive(Debug)]
pub struct WeightNorm {
    /// Module path.
    pub name: String,
    /// Frobenius norm over the square root of the number of weights, in the unit of scores.
    pub norm: i64,
    /// Number of weights.
    pub n_params: usize,
}

/// The scores of the layers.
pub open spec fn scores_of(layers: Seq<LayerSensitivity>) -> Seq<i64> {
    layers.map_values(|l: LayerSensitivity| l.score)
}

/// Parameters of all layers together.
pub open spec fn total_params(layers: Seq<LayerSensitivity>) -> nat
    decreases layers.len(),
{
    if layers.len() == 0 {
        0
    } else {
        total_params(layers.drop_last()) + layers.last().n_params as nat
    }
}

/// The first layers hold no more parameters than all.
pub proof fn total_params_grows(layers: Seq<LayerSensitivity>, n: int)
    requires
        0 <= n <= layers.len(),
    ensures
        total_params(layers.take(n)) <= total_params(layers),
    decreases layers.len() - n,
{
    if n < layers.len() {
        total_params_grows(layers, n + 1);
        assert(layers.take(n + 1).drop_last() == layers.take(n));
    } else {
        assert(layers.take(n) == layers);
    }
}

impl Clone for LayerSensitivity {
    fn clone(&self) -> (r: Self)
        ensures
            r == *self,
    {
        LayerSensitivity {
            name: self.name.clone(),
            score: self.score,
            fisher_trace: self.fisher_trace,
            n_params: self.n_params,
        }
    }
}

/// Adds up the parameters of all layers.
pub fn sum_params(layers: &[LayerSensitivity]) -> (r: usize)
    requires
        total_params(layers@) <= usize::MAX,
    ensures
        r == total_params(layers@),
{
    let mut sum: usize = 0;
    for i in 0..layers.len()
        invariant
            total_params(layers@) <= usize::MAX,
            sum == total_params(layers@.take(i as int)),
    {
        proof {
            total_params_grows(layers@, i + 1);
            assert(layers@.take(i + 1).drop_last() == layers@.take(i as int));
        }
        sum = sum + layers[i].n_params;
    }
    assert(layers@.take(layers@.len() as int) == layers@);
    sum
}

/// Collects the scores of the layers.
pub fn list_scores(layers: &[LayerSensitivity]) -> (r: Vec<i64>)
    ensures
        r@ == scores_of(layers@),
{
    let mut out: Vec<i64> = Vec::new();
    for i in 0..layers.len()
        invariant
            out@.len() == i,
            forall|k: int| 0 <= k < i ==> #[trigger] out@[k] == layers@[k].score,
    {
        out.push(layers[i].score);
    }
    assert(out@ =~= scores_of(layers@));
    out
}

/// The layer that a weight norm gives: the norm is its score, and it has no Fisher trace.
pub open spec fn of_norm(w: WeightNorm, l: LayerSensitivity) -> bool {
    &&& l.name@ == w.name@
    &&& l.score == w.norm
    &&& l.fisher_trace == 0
    &&& l.n_params == w.n_params
}

/// The norms of the weight tensors.
pub open spec fn norms_of(weights: Seq<WeightNorm>) -> Seq<i64> {
    weights.map_values(|w: WeightNorm| w.norm)
}

/// Sensitivities from weight norms, most sensitive first, equal norms in their own order.
pub fn compute_sensitivity_from_weights(weights: &[WeightNorm]) -> (r: Vec<LayerSensitivity>)
    ensures
        r@.len() == weights@.len(),
        forall|p: int, q: int|
            0 <= p < q < r@.len() ==> (#[trigger] r@[p]).score >= (#[trigger] r@[q]).score,
        exists|order: Seq<usize>| #[trigger]
            is_ranking(norms_of(weights@), order) && forall|p: int|
                0 <= p < r@.len() ==> of_norm(weights@[order[p] as int], #[trigger] r@[p]),
        scored_by_norm(weights@, r@),
        r@.map_values(|l: LayerSensitivity| (l.name@, l.score, l.n_params)).to_multiset()
            == weights@.map_values(|w: WeightNorm| (w.name@, w.norm, w.n_params)).to_multiset(),
        forall|p: int| 0 <= p < r@.len() ==> (#[trigger] r@[p]).fisher_trace == 0,
{
    let mut norms: Vec<i64> = Vec::new();
    for i in 0..weights.len()
        invariant
            norms@.len() == i,
            forall|k: int| 0 <= k < i ==> #[trigger] norms@[k] == weights@[k].norm,
    {
        norms.push(weights[i].norm);
    }
    assert(norms@ =~= norms_of(weights@));
    let order: Vec<usize> = rank_by_score(&norms);
    let mut out: Vec<LayerSensitivity> = Vec::new();
    for p in 0..order.len()
        invariant
            is_ranking(norms_of(weights@), order@),
            out@.len() == p,
            forall|q: int|
                0 <= q < p ==> of_norm(weights@[order@[q] as int], #[trigger] out@[q]),
    {
        assert(order@[p as int] < weights@.len());
        let w = &weights[order[p]];
        out.push(
            LayerSensitivity {
                name: w.name.clone(),
                score: w.norm,
                fisher_trace: 0,
                n_params: w.n_params,
            },
        );
    }
    assert(is_ranking(norms_of(weights@), order@));
    proof {
        scores_are_the_norms(weights@, out@);
    }
    out
}

/// Whether any layer comes with a Fisher trace.
pub open spec fn has_fisher(layers: Seq<LayerSensitivity>) -> bool {
    exists|i: int| 0 <= i < layers.len() && (#[trigger] layers[i]).fisher_trace > 0
}

/// The layer with its score replaced by a blended one.
pub open spec fn rescored(l: LayerSensitivity, score: i64, r: LayerSensitivity) -> bool {
    &&& r.name@ == l.name@
    &&& r.score == score
    &&& r.fisher_trace == l.fisher_trace
    &&& r.n_params == l.n_params
}

/// Tells whether any layer comes with a Fisher trace.
pub fn fisher_available(layers: &[LayerSensitivity]) -> (r: bool)
    ensures
        r == has_fisher(layers@),
{
    for i in 0..layers.len()
        invariant
            forall|k: int| 0 <= k < i ==> (#[trigger] layers@[k]).fisher_trace <= 0,
    {
        if layers[i].fisher_trace > 0 {
            return true;
        }
    }
    false
}

/// Sensitivities under blended scores, most sensitive first, equal scores in their own order.
///
/// `blended` holds for each layer the blend of its normalized Fisher trace and score. Where no
/// layer has a trace there is nothing to blend: the layers come back as they are, in their own
/// order.
pub fn compute_fisher_weighted(
    sensitivities: &[LayerSensitivity],
    blended: &[i64],
) -> (r: Vec<LayerSensitivity>)
    requires
        blended@.len() == sensitivities@.len(),
    ensures
        r@.len() == sensitivities@.len(),
        !has_fisher(sensitivities@) ==> r@ == sensitivities@,
        has_fisher(sensitivities@) ==> forall|p: int, q: int|
            0 <= p < q < r@.len() ==> (#[trigger] r@[p]).score >= (#[trigger] r@[q]).score,
        has_fisher(sensitivities@) ==> exists|order: Seq<usize>| #[trigger]
            is_ranking(blended@, order) && forall|p: int|
                0 <= p < r@.len() ==> rescored(
                    sensitivities@[order[p] as int],
                    blended@[order[p] as int],
                    #[trigger] r@[p],
                ),
        has_fisher(sensitivities@) ==> scored_by_blend(sensitivities@, blended@, r@),
        (exists|i: int| 0 <= i < sensitivities@.len() && (#[trigger] sensitivities@[i]).fisher_trace
            > 0) ==> r@.map_values(
            |l: LayerSensitivity| (l.name@, l.score, l.fisher_trace, l.n_params),
        ).to_multiset() == Seq::new(
            sensitivities@.len(),
            |i: int|
                (
                    sensitivities@[i].name@,
                    blended@[i],
                    sensitivities@[i].fisher_trace,
                    sensitivities@[i].n_params,
                ),
        ).to_multiset(),
        (forall|i: int|
            0 <= i < sensitivities@.len() ==> (#[trigger] sensitivities@[i]).fisher_trace <= 0)
            ==> r@ == sensitivities@,
{
    let mut out: Vec<LayerSensitivity> = Vec::new();
    if !fisher_available(sensitivities) {
        for i in 0..sensitivities.len()
            invariant
                out@.len() == i,
                forall|k: int| 0 <= k < i ==> #[trigger] out@[k] == sensitivities@[k],
        {
            out.push(sensitivities[i].clone());
        }
        return out;
    }
    let order: Vec<usize> = rank_by_score(blended);
    for p in 0..order.len()
        invariant
            blended@.len() == sensitivities@.len(),
            is_ranking(blended@, order@),
            out@.len() == p,
            forall|q: int|
                0 <= q < p ==> rescored(
                    sensitivities@[order@[q] as int],
                    blended@[order@[q] as int],
                    #[trigger] out@[q],
                ),
    {
        assert(order@[p as int] < blended@.len());
        let s = &sensitivities[order[p]];
        out.push(
            LayerSensitivity {
                name: s.name.clone(),
                score: blended[order[p]],
                fisher_trace: s.fisher_trace,
                n_params: s.n_params,
            },
        );
    }
    assert(is_ranking(blended@, order@));
    proof {
        scores_are_the_blends(sensitivities@, blended@, out@);
    }
    out
}

/// The parameters of two lists of layers add up.
pub proof fn params_add_up(a: Seq<LayerSensitivity>, b: Seq<LayerSensitivity>)
    ensures
        total_params(a + b) == total_params(a) + total_params(b),
    decreases b.len(),
{
    if b.len() == 0 {
        assert(a + b =~= a);
    } else {
        params_add_up(a, b.drop_last());
        assert((a + b).drop_last() =~= a + b.drop_last());
    }
}

/// A layer by itself has its own parameters.
pub proof fn one_layer_has_its_params(l: LayerSensitivity)
    ensures
        total_params(seq![l]) == l.n_params,
{
    reveal_with_fuel(total_params, 2);
    assert(seq![l].drop_last() =~= Seq::<LayerSensitivity>::empty());
}

/// Whether `r` lists the weight tensors as layers, by falling norm.
pub open spec fn scored_by_norm(weights: Seq<WeightNorm>, r: Seq<LayerSensitivity>) -> bool {
    &&& r.len() == weights.len()
    &&& exists|order: Seq<usize>| #[trigger]
        is_ranking(norms_of(weights), order) && forall|p: int|
            0 <= p < r.len() ==> of_norm(weights[order[p] as int], #[trigger] r[p])
}

/// Whether `r` lists the layers under blended scores, by falling score.
pub open spec fn scored_by_blend(
    layers: Seq<LayerSensitivity>,
    blended: Seq<i64>,
    r: Seq<LayerSensitivity>,
) -> bool {
    &&& r.len() == layers.len()
    &&& exists|order: Seq<usize>| #[trigger]
        is_ranking(blended, order) && forall|p: int|
            0 <= p < r.len() ==> rescored(
                layers[order[p] as int],
                blended[order[p] as int],
                #[trigger] r[p],
            )
}

/// Two lists that hold the same entries in different order hold them equally often.
proof fn rearranging_keeps_entries<T>(a: Seq<T>, b: Seq<T>, order: Seq<int>)
    requires
        a.len() == b.len(),
        order.len() == a.len(),
        order.no_duplicates(),
        forall|p: int| 0 <= p < order.len() ==> 0 <= #[trigger] order[p] < b.len(),
        forall|p: int| 0 <= p < order.len() ==> a[p] == b[#[trigger] order[p]],
    ensures
        a.to_multiset() == b.to_multiset(),
    decreases a.len(),
{
    if a.len() == 0 {
        assert(a =~= b);
    } else {
        let n = a.len() - 1;
        let j = order[n];
        let less = b.remove(j);
        let next = Seq::new(n as nat, |p: int| if order[p] < j { order[p] } else { order[p] - 1 });
        let rest = a.drop_last();
        assert forall|p: int| 0 <= p < n implies 0 <= #[trigger] next[p] < less.len() && rest[p]
            == less[next[p]] by {
            assert(order[p] != order[n]);
            assert(a[p] == b[order[p]]);
        }
        assert(next.no_duplicates()) by {
            assert forall|p: int, q: int| 0 <= p < n && 0 <= q < n && p != q implies next[p]
                != next[q] by {
                assert(order[p] != order[q] && order[p] != order[n] && order[q] != order[n]);
            }
        }
        rearranging_keeps_entries(rest, less, next);
        assert(a =~= rest.push(a[n]));
        assert(a[n] == b[j]);
        assert(b =~= less.insert(j, b[j]));
        to_multiset_build(rest, a[n]);
        to_multiset_insert(less, j, b[j]);
    }
}

/// The places of a ranking, without repeats.
proof fn places_of(scores: Seq<i64>, order: Seq<usize>) -> (r: Seq<int>)
    requires
        is_ranking(scores, order),
    ensures
        r.len() == order.len(),
        r.no_duplicates(),
        forall|p: int| 0 <= p < r.len() ==> #[trigger] r[p] == order[p],
        forall|p: int| 0 <= p < r.len() ==> 0 <= #[trigger] r[p] < scores.len(),
{
    let r = Seq::new(order.len(), |p: int| order[p] as int);
    assert(r.no_duplicates()) by {
        assert forall|p: int, q: int| 0 <= p < r.len() && 0 <= q < r.len() && p != q implies r[p]
            != r[q] by {
            if p < q {
                rankings_fall(scores, order, p, q);
            } else {
                rankings_fall(scores, order, q, p);
            }
        }
    }
    assert forall|p: int| 0 <= p < r.len() implies 0 <= #[trigger] r[p] < scores.len() by {
        assert(order[p] < scores.len());
    }
    r
}

/// Every weight tensor becomes one layer of its own name and size, whose score is its norm, and
/// every layer comes from one tensor.
pub proof fn scores_are_the_norms(weights: Seq<WeightNorm>, r: Seq<LayerSensitivity>)
    requires
        scored_by_norm(weights, r),
    ensures
        r.map_values(|l: LayerSensitivity| (l.name@, l.score, l.n_params)).to_multiset()
            == weights.map_values(|w: WeightNorm| (w.name@, w.norm, w.n_params)).to_multiset(),
        forall|p: int| 0 <= p < r.len() ==> (#[trigger] r[p]).fisher_trace == 0,
        forall|p: int, q: int|
            0 <= p < q < r.len() ==> (#[trigger] r[p]).score >= (#[trigger] r[q]).score,
{
    let order = choose|order: Seq<usize>| #[trigger]
        is_ranking(norms_of(weights), order) && forall|p: int|
            0 <= p < r.len() ==> of_norm(weights[order[p] as int], #[trigger] r[p]);
    let places = places_of(norms_of(weights), order);
    let a = r.map_values(|l: LayerSensitivity| (l.name@, l.score, l.n_params));
    let b = weights.map_values(|w: WeightNorm| (w.name@, w.norm, w.n_params));
    assert forall|p: int| 0 <= p < places.len() implies a[p] == b[#[trigger] places[p]] by {
        assert(of_norm(weights[order[p] as int], r[p]));
    }
    rearranging_keeps_entries(a, b, places);
    assert forall|p: int, q: int| 0 <= p < q < r.len() implies (#[trigger] r[p]).score >= (
    #[trigger] r[q]).score by {
        rankings_fall(norms_of(weights), order, p, q);
        assert(of_norm(weights[order[p] as int], r[p]) && of_norm(weights[order[q] as int], r[q]));
    }
}

/// Of two tensors the one of greater norm is listed first and scores higher, and of two of equal
/// norm the one that was given first is listed first, at the same score.
pub proof fn greater_norms_come_first(
    weights: Seq<WeightNorm>,
    r: Seq<LayerSensitivity>,
    i: int,
    j: int,
)
    requires
        scored_by_norm(weights, r),
        0 <= i < weights.len(),
        0 <= j < weights.len(),
        weights[i].norm > weights[j].norm || (weights[i].norm == weights[j].norm && i < j),
    ensures
        exists|p: int, q: int|
            {
                &&& 0 <= p < q < r.len()
                &&& (#[trigger] r[p]).name@ == weights[i].name@
                &&& r[p].score == weights[i].norm
                &&& r[p].n_params == weights[i].n_params
                &&& (#[trigger] r[q]).name@ == weights[j].name@
                &&& r[q].score == weights[j].norm
                &&& r[q].n_params == weights[j].n_params
            },
{
    let norms = norms_of(weights);
    let order = choose|order: Seq<usize>| #[trigger]
        is_ranking(norms, order) && forall|p: int|
            0 <= p < r.len() ==> of_norm(weights[order[p] as int], #[trigger] r[p]);
    ranking_covers(norms, order, i);
    ranking_covers(norms, order, j);
    let p = choose|p: int| 0 <= p < order.len() && #[trigger] order[p] == i;
    let q = choose|q: int| 0 <= q < order.len() && #[trigger] order[q] == j;
    if q < p {
        rankings_fall(norms, order, q, p);
    }
    assert(of_norm(weights[order[p] as int], r[p]) && of_norm(weights[order[q] as int], r[q]));
}

/// Under blended scores every layer keeps its name, trace and size and takes its own blend as its
/// score, and none is added or lost.
pub proof fn scores_are_the_blends(
    layers: Seq<LayerSensitivity>,
    blended: Seq<i64>,
    r: Seq<LayerSensitivity>,
)
    requires
        blended.len() == layers.len(),
        scored_by_blend(layers, blended, r),
    ensures
        r.map_values(
            |l: LayerSensitivity| (l.name@, l.score, l.fisher_trace, l.n_params),
        ).to_multiset() == Seq::new(
            layers.len(),
            |i: int| (layers[i].name@, blended[i], layers[i].fisher_trace, layers[i].n_params),
        ).to_multiset(),
        forall|p: int, q: int|
            0 <= p < q < r.len() ==> (#[trigger] r[p]).score >= (#[trigger] r[q]).score,
{
    let order = choose|order: Seq<usize>| #[trigger]
        is_ranking(blended, order) && forall|p: int|
            0 <= p < r.len() ==> rescored(
                layers[order[p] as int],
                blended[order[p] as int],
                #[trigger] r[p],
            );
    let places = places_of(blended, order);
    let a = r.map_values(|l: LayerSensitivity| (l.name@, l.score, l.fisher_trace, l.n_params));
    let b = Seq::new(
        layers.len(),
        |i: int| (layers[i].name@, blended[i], layers[i].fisher_trace, layers[i].n_params),
    );
    assert forall|p: int| 0 <= p < places.len() implies a[p] == b[#[trigger] places[p]] by {
        assert(rescored(layers[order[p] as int], blended[order[p] as int], r[p]));
    }
    rearranging_keeps_entries(a, b, places);
    assert forall|p: int, q: int| 0 <= p < q < r.len() implies (#[trigger] r[p]).score >= (
    #[trigger] r[q]).score by {
        rankings_fall(blended, order, p, q);
        assert(rescored(layers[order[p] as int], blended[order[p] as int], r[p]));
        assert(rescored(layers[order[q] as int], blended[order[q] as int], r[q]));
    }
}

/// Of two layers the one of greater blend is listed first, and of two of equal blend the one that
/// was given first.
pub proof fn greater_blends_come_first(
    layers: Seq<LayerSensitivity>,
    blended: Seq<i64>,
    r: Seq<LayerSensitivity>,
    i: int,
    j: int,
)
    requires
        blended.len() == layers.len(),
        scored_by_blend(layers, blended, r),
        0 <= i < layers.len(),
        0 <= j < layers.len(),
        blended[i] > blended[j] || (blended[i] == blended[j] && i < j),
    ensures
        exists|p: int, q: int|
            {
                &&& 0 <= p < q < r.len()
                &&& (#[trigger] r[p]).name@ == layers[i].name@
                &&& r[p].score == blended[i]
                &&& r[p].fisher_trace == layers[i].fisher_trace
                &&& r[p].n_params == layers[i].n_params
                &&& (#[trigger] r[q]).name@ == layers[j].name@
                &&& r[q].score == blended[j]
                &&& r[q].fisher_trace == layers[j].fisher_trace
                &&& r[q].n_params == layers[j].n_params
            },
{
    let order = choose|order: Seq<usize>| #[trigger]
        is_ranking(blended, order) && forall|p: int|
            0 <= p < r.len() ==> rescored(
                layers[order[p] as int],
                blended[order[p] as int],
                #[trigger] r[p],
            );
    ranking_covers(blended, order, i);
    ranking_covers(blended, order, j);
    let p = choose|p: int| 0 <= p < order.len() && #[trigger] order[p] == i;
    let q = choose|q: int| 0 <= q < order.len() && #[trigger] order[q] == j;
    if q < p {
        rankings_fall(blended, order, q, p);
    }
    assert(rescored(layers[order[p] as int], blended[order[p] as int], r[p]));
    assert(rescored(layers[order[q] as int], blended[order[q] as int], r[q]));
}

/// There are traces to blend where some layer's trace is above zero, and nowhere else.
pub proof fn traces_above_zero_count(layers: Seq<LayerSensitivity>, i: int)
    requires
        0 <= i < layers.len(),
    ensures
        layers[i].fisher_trace > 0 ==> has_fisher(layers),
        (forall|k: int| 0 <= k < layers.len() ==> (#[trigger] layers[k]).fisher_trace <= 0)
            ==> !has_fisher(layers),
{
}

/// The listed scores are those of the layers.
pub proof fn listed_scores_are_the_layers(layers: Seq<LayerSensitivity>, i: int)
    requires
        0 <= i < layers.len(),
    ensures
        scores_of(layers).len() == layers.len(),
        scores_of(layers)[i] == layers[i].score,
{
}

} // verus!
