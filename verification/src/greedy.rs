//! Upgrading the most sensitive layers until the target is met.
use crate::bpp::TargetBpp;
use crate::format::{bits_follow_precision, AllocFormat};
use crate::ranking::{is_ranking, rank_by_score, ranking_covers, ranks_before, same_order};
use crate::sensitivity::{
    list_scores, scores_of, sum_params, total_params, total_params_grows, LayerSensitivity,
};
use vstd::prelude::*;

verus! {

/// The format of a list that takes the fewest bits.
pub open spec fn cheapest(formats: Seq<AllocFormat>) -> AllocFormat {
    if formats.contains(AllocFormat::Nvfp4) {
        AllocFormat::Nvfp4
    } else if formats.contains(AllocFormat::Mxfp8) {
        AllocFormat::Mxfp8
    } else {
        AllocFormat::Bf16
    }
}

/// The formats that a layer passes from `start` when it takes every format of a list, in list
/// order, that needs more bits than the one before.
pub open spec fn climb(start: AllocFormat, formats: Seq<AllocFormat>) -> Seq<AllocFormat>
    decreases formats.len(),
{
    if formats.len() == 0 {
        seq![start]
    } else {
        let below = climb(start, formats.drop_last());
        if formats.last().bpp() > below.last().bpp() {
            below.push(formats.last())
        } else {
            below
        }
    }
}

/// The steps by which a layer is upgraded, from the cheapest format up.
pub open spec fn ladder(formats: Seq<AllocFormat>) -> Seq<AllocFormat> {
    climb(cheapest(formats), formats)
}

/// Bits that an assignment takes.
pub open spec fn assigned_bits(
    layers: Seq<LayerSensitivity>,
    assigned: Seq<AllocFormat>,
) -> int
    decreases assigned.len(),
{
    if assigned.len() == 0 {
        0
    } else {
        assigned_bits(layers, assigned.drop_last()) + layers[assigned.len() - 1].n_params
            * assigned.last().bpp()
    }
}

/// Step of the ladder on which layer `i` stands when upgrading has come to step `step` of layer
/// `front`: more sensitive layers are at the top, less sensitive ones at the bottom. A layer
/// without parameters is not upgraded.
pub open spec fn step_of(
    layers: Seq<LayerSensitivity>,
    top: int,
    front: int,
    step: int,
    i: int,
) -> int {
    if layers[i].n_params == 0 {
        0
    } else if i == front {
        step
    } else if ranks_before(scores_of(layers), i, front) {
        top
    } else {
        0
    }
}

/// The assignment when upgrading has come to step `step` of layer `front`.
pub open spec fn upgraded_to(
    layers: Seq<LayerSensitivity>,
    formats: Seq<AllocFormat>,
    front: int,
    step: int,
) -> Seq<AllocFormat> {
    let rungs = ladder(formats);
    Seq::new(layers.len(), |i: int| rungs[step_of(layers, rungs.len() - 1, front, step, i)])
}

/// Whether an assignment reaches the target.
pub open spec fn reaches_target(
    layers: Seq<LayerSensitivity>,
    target: TargetBpp,
    assigned: Seq<AllocFormat>,
) -> bool {
    target.met(total_params(layers) as int, assigned_bits(layers, assigned))
}

/// Whether step `step2` of layer `front2` comes before step `step` of layer `front`.
pub open spec fn comes_earlier(
    layers: Seq<LayerSensitivity>,
    front2: int,
    step2: int,
    front: int,
    step: int,
) -> bool {
    ranks_before(scores_of(layers), front2, front) || (front2 == front && step2 < step)
}

/// Whether upgrading stops at step `step` of layer `front`: the target is met there, or nothing is
/// left to upgrade, and it was not met at any earlier step.
pub open spec fn stops_at(
    layers: Seq<LayerSensitivity>,
    formats: Seq<AllocFormat>,
    target: TargetBpp,
    front: int,
    step: int,
) -> bool {
    let top = ladder(formats).len() - 1;
    &&& 0 <= front < layers.len()
    &&& 0 <= step <= top
    &&& forall|f: int, s: int|
        0 <= f < layers.len() && 0 <= s <= top && #[trigger] comes_earlier(
            layers,
            f,
            s,
            front,
            step,
        ) ==> !reaches_target(layers, target, upgraded_to(layers, formats, f, s))
    &&& reaches_target(layers, target, upgraded_to(layers, formats, front, step)) || (step == top
        && forall|i: int|
        0 <= i < layers.len() && i != front ==> #[trigger] ranks_before(
            scores_of(layers),
            i,
            front,
        ))
}

/// Whether an assignment is the greedy one.
pub open spec fn is_greedy(
    layers: Seq<LayerSensitivity>,
    formats: Seq<AllocFormat>,
    target: TargetBpp,
    assigned: Seq<AllocFormat>,
) -> bool {
    exists|front: int, step: int| #[trigger]
        stops_at(layers, formats, target, front, step) && assigned == upgraded_to(
            layers,
            formats,
            front,
            step,
        )
}

/// The ladder starts at the start and climbs.
proof fn climb_climbs(start: AllocFormat, formats: Seq<AllocFormat>)
    ensures
        1 <= climb(start, formats).len() <= formats.len() + 1,
        climb(start, formats)[0] == start,
        forall|i: int, j: int|
            0 <= i < j < climb(start, formats).len() ==> (#[trigger] climb(start, formats)[i]).bpp()
                < (#[trigger] climb(start, formats)[j]).bpp(),
    decreases formats.len(),
{
    if formats.len() > 0 {
        climb_climbs(start, formats.drop_last());
    }
}

/// Each step of the ladder takes more bits than the one below, and it starts at the cheapest
/// format.
pub proof fn ladder_climbs(formats: Seq<AllocFormat>)
    ensures
        ladder(formats).len() >= 1,
        ladder(formats)[0] == cheapest(formats),
        forall|i: int, j: int|
            0 <= i < j < ladder(formats).len() ==> (#[trigger] ladder(formats)[i]).bpp() < (
            #[trigger] ladder(formats)[j]).bpp(),
{
    climb_climbs(cheapest(formats), formats);
}

/// The cheapest format is on the list, and none takes fewer bits.
pub proof fn cheapest_is_least(formats: Seq<AllocFormat>, i: int)
    requires
        0 <= i < formats.len(),
    ensures
        formats.contains(cheapest(formats)),
        cheapest(formats).bpp() <= formats[i].bpp(),
{
    let f = formats[i];
    assert(formats.contains(f));
}

/// Changing one layer's format changes the bits by that layer's share.
proof fn bits_after_update(
    layers: Seq<LayerSensitivity>,
    assigned: Seq<AllocFormat>,
    i: int,
    f: AllocFormat,
)
    requires
        0 <= i < assigned.len() <= layers.len(),
    ensures
        assigned_bits(layers, assigned.update(i, f)) == assigned_bits(layers, assigned)
            + layers[i].n_params * f.bpp() - layers[i].n_params * assigned[i].bpp(),
    decreases assigned.len(),
{
    let after = assigned.update(i, f);
    if i == assigned.len() - 1 {
        assert(after.drop_last() == assigned.drop_last());
    } else {
        assert(after.drop_last() == assigned.drop_last().update(i, f));
        bits_after_update(layers, assigned.drop_last(), i, f);
    }
}

/// An assignment takes at most sixteen bits per parameter.
pub proof fn assigned_bits_bound(layers: Seq<LayerSensitivity>, assigned: Seq<AllocFormat>)
    requires
        assigned.len() <= layers.len(),
    ensures
        0 <= assigned_bits(layers, assigned) <= 16 * total_params(
            layers.take(assigned.len() as int),
        ),
    decreases assigned.len(),
{
    if assigned.len() > 0 {
        let n = assigned.len() as int;
        assigned_bits_bound(layers, assigned.drop_last());
        assert(layers.take(n).drop_last() == layers.take(n - 1));
        let p = layers[n - 1].n_params as int;
        let b = assigned.last().bpp() as int;
        assert(0 <= p * b <= 16 * p) by (nonlinear_arith)
            requires
                p >= 0,
                0 <= b <= 16,
        ;
    }
}

/// The cheapest format of a list.
pub fn cheapest_format(formats: &[AllocFormat]) -> (r: AllocFormat)
    requires
        formats@.len() > 0,
    ensures
        r == cheapest(formats@),
{
    let mut best: AllocFormat = formats[0];
    assert(formats@.contains(best));
    for i in 0..formats.len()
        invariant
            formats@.contains(best),
            forall|k: int| 0 <= k < i ==> best.bpp() <= (#[trigger] formats@[k]).bpp(),
    {
        if formats[i].effective_bpp() < best.effective_bpp() {
            best = formats[i];
        }
    }
    proof {
        let c = cheapest(formats@);
        let k = formats@.index_of(best);
        cheapest_is_least(formats@, k);
        let j = formats@.index_of(c);
        assert(formats@[j] == c);
        assert(best.bpp() == c.bpp());
    }
    best
}

/// The steps by which a layer is upgraded.
pub fn upgrade_ladder(formats: &[AllocFormat]) -> (r: Vec<AllocFormat>)
    requires
        formats@.len() > 0,
    ensures
        r@ == ladder(formats@),
{
    let start: AllocFormat = cheapest_format(formats);
    let mut out: Vec<AllocFormat> = Vec::new();
    out.push(start);
    assert(out@ =~= climb(start, formats@.take(0)));
    for i in 0..formats.len()
        invariant
            start == cheapest(formats@),
            out@ == climb(start, formats@.take(i as int)),
            out@.len() >= 1,
    {
        assert(formats@.take(i + 1).drop_last() == formats@.take(i as int));
        if formats[i].effective_bpp() > out[out.len() - 1].effective_bpp() {
            out.push(formats[i]);
        }
    }
    assert(formats@.take(formats@.len() as int) == formats@);
    out
}

/// The place of an index in a ranking.
proof fn place_in(scores: Seq<i64>, order: Seq<usize>, i: int) -> (p: int)
    requires
        is_ranking(scores, order),
        0 <= i < scores.len(),
    ensures
        0 <= p < order.len(),
        order[p] == i,
{
    ranking_covers(scores, order, i);
    choose|p: int| 0 <= p < order.len() && #[trigger] order[p] == i
}

/// Reaching the top with one layer is to stand at the bottom with the next.
proof fn top_is_next_bottom(
    layers: Seq<LayerSensitivity>,
    formats: Seq<AllocFormat>,
    order: Seq<usize>,
    p: int,
)
    requires
        is_ranking(scores_of(layers), order),
        0 <= p < p + 1 < order.len(),
    ensures
        upgraded_to(layers, formats, order[p] as int, ladder(formats).len() - 1) == upgraded_to(
            layers,
            formats,
            order[p + 1] as int,
            0,
        ),
{
    let top = ladder(formats).len() - 1;
    let scores = scores_of(layers);
    let a = order[p] as int;
    let b = order[p + 1] as int;
    assert(ranks_before(scores, a, b));
    assert forall|i: int| 0 <= i < layers.len() implies #[trigger] step_of(layers, top, a, top, i)
        == step_of(layers, top, b, 0, i) by {
        let q = place_in(scores, order, i);
        if q < p {
            assert(ranks_before(scores, order[q] as int, order[p] as int));
            assert(ranks_before(scores, order[q] as int, order[p + 1] as int));
        } else if q > p + 1 {
            assert(ranks_before(scores, order[p] as int, order[q] as int));
            assert(ranks_before(scores, order[p + 1] as int, order[q] as int));
        }
    }
    assert(upgraded_to(layers, formats, a, top) =~= upgraded_to(layers, formats, b, 0));
}

/// Whether the target is not met at any step before step `step` of layer `front`.
spec fn unmet_before(
    layers: Seq<LayerSensitivity>,
    formats: Seq<AllocFormat>,
    target: TargetBpp,
    front: int,
    step: int,
) -> bool {
    forall|f: int, s: int|
        0 <= f < layers.len() && 0 <= s <= ladder(formats).len() - 1 && #[trigger] comes_earlier(
            layers,
            f,
            s,
            front,
            step,
        ) ==> !reaches_target(layers, target, upgraded_to(layers, formats, f, s))
}

proof fn unmet_before_next_layer(
    layers: Seq<LayerSensitivity>,
    formats: Seq<AllocFormat>,
    target: TargetBpp,
    order: Seq<usize>,
    p: int,
)
    requires
        is_ranking(scores_of(layers), order),
        0 <= p < p + 1 < order.len(),
        unmet_before(layers, formats, target, order[p] as int, ladder(formats).len() - 1),
        !reaches_target(
            layers,
            target,
            upgraded_to(layers, formats, order[p] as int, ladder(formats).len() - 1),
        ),
    ensures
        unmet_before(layers, formats, target, order[p + 1] as int, 0),
{
    let scores = scores_of(layers);
    let top = ladder(formats).len() - 1;
    assert forall|f: int, s: int|
        0 <= f < layers.len() && 0 <= s <= top && #[trigger] comes_earlier(
            layers,
            f,
            s,
            order[p + 1] as int,
            0,
        ) implies !reaches_target(layers, target, upgraded_to(layers, formats, f, s)) by {
        let q = place_in(scores, order, f);
        if q > p + 1 {
            assert(ranks_before(scores, order[p + 1] as int, order[q] as int));
        }
        if q < p {
            assert(ranks_before(scores, order[q] as int, order[p] as int));
        }
        assert(q <= p);
        if q < p || s < top {
            assert(comes_earlier(layers, f, s, order[p] as int, top));
        }
    }
}

proof fn unmet_before_next_step(
    layers: Seq<LayerSensitivity>,
    formats: Seq<AllocFormat>,
    target: TargetBpp,
    front: int,
    step: int,
)
    requires
        unmet_before(layers, formats, target, front, step),
        !reaches_target(layers, target, upgraded_to(layers, formats, front, step)),
    ensures
        unmet_before(layers, formats, target, front, step + 1),
{
    assert forall|f: int, s: int|
        0 <= f < layers.len() && 0 <= s <= ladder(formats).len() - 1 && #[trigger] comes_earlier(
            layers,
            f,
            s,
            front,
            step + 1,
        ) implies !reaches_target(layers, target, upgraded_to(layers, formats, f, s)) by {
        if !(f == front && s == step) {
            assert(comes_earlier(layers, f, s, front, step));
        }
    }
}

/// The greedy assignment, and the bits it takes.
///
/// All layers start at the cheapest format. The most sensitive layer that can go higher is
/// upgraded, step by step, until the target is met.
pub fn greedy_formats(
    layers: &[LayerSensitivity],
    target: &TargetBpp,
    formats: &[AllocFormat],
) -> (r: (Vec<AllocFormat>, u128))
    requires
        layers@.len() > 0,
        formats@.len() > 0,
        total_params(layers@) <= usize::MAX,
        target.wf(),
    ensures
        r.0@.len() == layers@.len(),
        is_greedy(layers@, formats@, *target, r.0@),
        r.1 == assigned_bits(layers@, r.0@),
{
    let n: usize = layers.len();
    let scores: Vec<i64> = list_scores(layers);
    let order: Vec<usize> = rank_by_score(&scores);
    let params: usize = sum_params(layers);
    let needed: u128 = target.bits_to_meet(params);
    let rungs: Vec<AllocFormat> = upgrade_ladder(formats);
    let ghost ls = layers@;
    let ghost fs = formats@;
    proof {
        ladder_climbs(fs);
    }
    let mut assigned: Vec<AllocFormat> = Vec::new();
    let mut total: u128 = 0;
    for i in 0..n
        invariant
            n == ls.len(),
            ls == layers@,
            rungs@.len() >= 1,
            total_params(ls) <= usize::MAX,
            assigned@.len() == i,
            forall|k: int| 0 <= k < i ==> #[trigger] assigned@[k] == rungs@[0],
            total == assigned_bits(ls, assigned@),
    {
        let ghost before = assigned@;
        assigned.push(rungs[0]);
        assert(assigned@.drop_last() == before);
        proof {
            assigned_bits_bound(ls, assigned@);
            total_params_grows(ls, i + 1);
            assigned_bits_bound(ls, before);
        }
        let share: u128 = layers[i].n_params as u128;
        let bpp: u64 = rungs[0].effective_bpp();
        assert(0 <= share * bpp <= 0x10_0000_0000_0000_0000) by (nonlinear_arith)
            requires
                0 <= share <= 0x1_0000_0000_0000_0000,
                0 <= bpp <= 16,
        ;
        total = total + share * bpp as u128;
    }
    let top: usize = rungs.len() - 1;
    let mut p: usize = 0;
    let mut step: usize = 0;
    proof {
        let front = order@[0] as int;
        assert(assigned@ =~= upgraded_to(ls, fs, front, 0)) by {
            assert forall|i: int| 0 <= i < n implies #[trigger] step_of(ls, top as int, front, 0, i)
                == 0 by {
                let q = place_in(scores@, order@, i);
                if q > 0 {
                    assert(ranks_before(scores@, order@[0] as int, order@[q] as int));
                }
            }
        }
        assert forall|f: int, s: int|
            0 <= f < ls.len() && 0 <= s <= top && #[trigger] comes_earlier(
                ls,
                f,
                s,
                front,
                0,
            ) implies false by {
            let q = place_in(scores@, order@, f);
            if q > 0 {
                assert(ranks_before(scores@, order@[0] as int, order@[q] as int));
            }
        }
    }
    while total < needed && (p < n - 1 || step < top)
        invariant
            ls == layers@,
            fs == formats@,
            n == ls.len(),
            p < n,
            step <= top,
            params == total_params(ls),
            forall|t: int| #[trigger] target.met(params as int, t) <==> t >= needed,
            rungs@ == ladder(fs),
            top == rungs@.len() - 1,
            scores@ == scores_of(ls),
            is_ranking(scores@, order@),
            assigned@.len() == n,
            assigned@ == upgraded_to(ls, fs, order@[p as int] as int, step as int),
            total == assigned_bits(ls, assigned@),
            unmet_before(ls, fs, *target, order@[p as int] as int, step as int),
        decreases n - p, top - step,
    {
        assert(order@[p as int] < ls.len());
        let front: usize = order[p];
        assert(!reaches_target(ls, *target, assigned@));
        if step == top {
            proof {
                top_is_next_bottom(ls, fs, order@, p as int);
                unmet_before_next_layer(ls, fs, *target, order@, p as int);
            }
            p = p + 1;
            step = 0;
        } else {
            proof {
                unmet_before_next_step(ls, fs, *target, front as int, step as int);
                ladder_climbs(fs);
            }
            let ghost before = assigned@;
            let share: u128 = layers[front].n_params as u128;
            if share > 0 {
                let lower: u64 = assigned[front].effective_bpp();
                let higher: u64 = rungs[step + 1].effective_bpp();
                assert(before[front as int] == rungs@[step as int]);
                assert(lower < higher);
                let gain: u64 = higher - lower;
                assigned.set(front, rungs[step + 1]);
                proof {
                    bits_after_update(ls, before, front as int, rungs@[step + 1]);
                    assigned_bits_bound(ls, before);
                    assert(ls.take(n as int) == ls);
                    assert(0 <= share * gain <= 0x10_0000_0000_0000_0000) by (nonlinear_arith)
                        requires
                            0 <= share <= 0x1_0000_0000_0000_0000,
                            0 <= gain <= 16,
                    ;
                    assert(share * gain == share * higher - share * lower) by (nonlinear_arith)
                        requires
                            gain == higher - lower,
                    ;
                }
                total = total + share * gain as u128;
            }
            assert(assigned@ =~= upgraded_to(ls, fs, front as int, step + 1));
            step = step + 1;
        }
    }
    proof {
        let front = order@[p as int] as int;
        assert(order@[p as int] < ls.len());
        if total < needed {
            assert forall|i: int| 0 <= i < ls.len() && i != front implies #[trigger] ranks_before(
                scores_of(ls),
                i,
                front,
            ) by {
                let q = place_in(scores@, order@, i);
                assert(q < p);
            }
        }
        assert(stops_at(ls, fs, *target, front, step as int));
    }
    (assigned, total)
}

/// There is one greedy assignment only.
pub proof fn greedy_is_unique(
    layers: Seq<LayerSensitivity>,
    formats: Seq<AllocFormat>,
    target: TargetBpp,
    a: Seq<AllocFormat>,
    b: Seq<AllocFormat>,
)
    requires
        is_greedy(layers, formats, target, a),
        is_greedy(layers, formats, target, b),
    ensures
        a == b,
{
    let (f1, s1) = choose|f: int, s: int| #[trigger]
        stops_at(layers, formats, target, f, s) && a == upgraded_to(layers, formats, f, s);
    let (f2, s2) = choose|f: int, s: int| #[trigger]
        stops_at(layers, formats, target, f, s) && b == upgraded_to(layers, formats, f, s);
    let scores = scores_of(layers);
    if f1 != f2 || s1 != s2 {
        assert(comes_earlier(layers, f1, s1, f2, s2) || comes_earlier(layers, f2, s2, f1, s1));
        if comes_earlier(layers, f1, s1, f2, s2) {
            assert(f1 != f2 ==> ranks_before(scores, f2, f1));
        } else {
            assert(f1 != f2 ==> ranks_before(scores, f1, f2));
        }
    }
}

/// The greedy assignment meets the target, or every layer that has parameters is at the top of
/// the ladder.
pub proof fn greedy_meets_target_or_tops_out(
    layers: Seq<LayerSensitivity>,
    formats: Seq<AllocFormat>,
    target: TargetBpp,
    assigned: Seq<AllocFormat>,
)
    requires
        is_greedy(layers, formats, target, assigned),
    ensures
        reaches_target(layers, target, assigned) || forall|i: int|
            0 <= i < layers.len() && layers[i].n_params > 0 ==> #[trigger] assigned[i] == ladder(
                formats,
            ).last(),
{
    let (front, step) = choose|f: int, s: int| #[trigger]
        stops_at(layers, formats, target, f, s) && assigned == upgraded_to(layers, formats, f, s);
    if !reaches_target(layers, target, assigned) {
        assert forall|i: int| 0 <= i < layers.len() && layers[i].n_params > 0 implies
            #[trigger] assigned[i] == ladder(formats).last() by {
            if i != front {
                assert(ranks_before(scores_of(layers), i, front));
            }
        }
    }
}

/// A more sensitive layer never gets fewer bits per parameter than a less sensitive one, layers
/// without parameters aside.
pub proof fn greedy_favours_sensitive_layers(
    layers: Seq<LayerSensitivity>,
    formats: Seq<AllocFormat>,
    target: TargetBpp,
    assigned: Seq<AllocFormat>,
    i: int,
    j: int,
)
    requires
        is_greedy(layers, formats, target, assigned),
        0 <= i < layers.len(),
        0 <= j < layers.len(),
        layers[i].n_params > 0,
        layers[i].score > layers[j].score,
    ensures
        assigned[i].bpp() >= assigned[j].bpp(),
{
    ladder_climbs(formats);
}

/// Every assigned format is on the list, and none takes fewer bits than the cheapest.
pub proof fn greedy_assigns_listed_formats(
    layers: Seq<LayerSensitivity>,
    formats: Seq<AllocFormat>,
    target: TargetBpp,
    assigned: Seq<AllocFormat>,
    i: int,
)
    requires
        formats.len() > 0,
        is_greedy(layers, formats, target, assigned),
        0 <= i < layers.len(),
    ensures
        formats.contains(assigned[i]),
        cheapest(formats).bpp() <= assigned[i].bpp(),
{
    ladder_climbs(formats);
    cheapest_is_least(formats, 0);
    let (front, step) = choose|f: int, s: int| #[trigger]
        stops_at(layers, formats, target, f, s) && assigned == upgraded_to(layers, formats, f, s);
    let k = step_of(layers, ladder(formats).len() - 1, front, step, i);
    climb_is_listed(cheapest(formats), formats, k);
    assert(assigned[i] == ladder(formats)[k]);
    if k > 0 {
        assert(ladder(formats)[0].bpp() < ladder(formats)[k].bpp());
    }
}

proof fn climb_is_listed(start: AllocFormat, formats: Seq<AllocFormat>, k: int)
    requires
        0 <= k < climb(start, formats).len(),
    ensures
        climb(start, formats)[k] == start || formats.contains(climb(start, formats)[k]),
    decreases formats.len(),
{
    if formats.len() > 0 {
        let below = climb(start, formats.drop_last());
        if k < below.len() {
            climb_is_listed(start, formats.drop_last(), k);
            if formats.drop_last().contains(below[k]) {
                let j = formats.drop_last().index_of(below[k]);
                assert(formats[j] == below[k]);
            }
        } else {
            assert(formats[formats.len() - 1] == formats.last());
        }
    }
}

/// The last in rank of the layers below `n` that rank before `front`, if there is any.
proof fn last_before(layers: Seq<LayerSensitivity>, front: int, n: int) -> (r: Option<int>)
    requires
        0 <= n <= layers.len(),
        0 <= front < layers.len(),
    ensures
        match r {
            None => forall|i: int|
                0 <= i < n ==> !(#[trigger] ranks_before(scores_of(layers), i, front)),
            Some(k) => {
                &&& 0 <= k < n
                &&& ranks_before(scores_of(layers), k, front)
                &&& forall|i: int|
                    0 <= i < n && i != k && #[trigger] ranks_before(scores_of(layers), i, front)
                        ==> ranks_before(scores_of(layers), i, k)
            },
        },
    decreases n,
{
    if n == 0 {
        None
    } else {
        let scores = scores_of(layers);
        let rest = last_before(layers, front, n - 1);
        if !ranks_before(scores, n - 1, front) {
            rest
        } else {
            match rest {
                None => Some(n - 1),
                Some(k) => if ranks_before(scores, k, n - 1) {
                    Some(n - 1)
                } else {
                    Some(k)
                },
            }
        }
    }
}

/// The greedy assignment stops no later than it must: where a layer was upgraded, there is one
/// whose last upgrade, taken back, leaves the target unmet.
pub proof fn greedy_stops_in_time(
    layers: Seq<LayerSensitivity>,
    formats: Seq<AllocFormat>,
    target: TargetBpp,
    assigned: Seq<AllocFormat>,
    i: int,
)
    requires
        target.wf(),
        is_greedy(layers, formats, target, assigned),
        0 <= i < layers.len(),
        assigned[i] != cheapest(formats),
    ensures
        exists|k: int, r: int|
            0 <= k < layers.len() && 0 <= r < ladder(formats).len() - 1 && assigned[k] == ladder(
                formats,
            )[r + 1] && !(#[trigger] reaches_target(
                layers,
                target,
                assigned.update(k, ladder(formats)[r]),
            )),
{
    let rungs = ladder(formats);
    let top = rungs.len() - 1;
    ladder_climbs(formats);
    let (front, step) = choose|f: int, s: int| #[trigger]
        stops_at(layers, formats, target, f, s) && assigned == upgraded_to(layers, formats, f, s);
    if !reaches_target(layers, target, assigned) {
        let r = step_of(layers, top, front, step, i) - 1;
        assert(assigned[i] == rungs[r + 1]);
        assert(rungs[r].bpp() < rungs[r + 1].bpp());
        bits_after_update(layers, assigned, i, rungs[r]);
        let share = layers[i].n_params as int;
        let less = assigned_bits(layers, assigned.update(i, rungs[r]));
        let more = assigned_bits(layers, assigned);
        assert(share * rungs[r].bpp() <= share * rungs[r + 1].bpp()) by (nonlinear_arith)
            requires
                share >= 0,
                rungs[r].bpp() < rungs[r + 1].bpp(),
        ;
        assert(less * target.params <= more * target.params) by (nonlinear_arith)
            requires
                less <= more,
                target.params > 0,
        ;
        assert(!reaches_target(layers, target, assigned.update(i, rungs[r])));
    } else if step > 0 && layers[front].n_params > 0 {
        let before = upgraded_to(layers, formats, front, step - 1);
        assert(comes_earlier(layers, front, step - 1, front, step));
        assert(assigned.update(front, rungs[step - 1]) =~= before);
        assert(assigned[front] == rungs[(step - 1) + 1]);
    } else {
        if step > 0 {
            assert(upgraded_to(layers, formats, front, 0) =~= assigned);
            assert(comes_earlier(layers, front, 0, front, step));
        }
        let scores = scores_of(layers);
        match last_before(layers, front, layers.len() as int) {
            None => {
                assert(!ranks_before(scores, i, front));
                assert(assigned[i] == rungs[0]);
            },
            Some(k) => {
                let before = upgraded_to(layers, formats, k, top);
                assert forall|x: int| 0 <= x < layers.len() implies before[x] == assigned[x] by {
                    if ranks_before(scores, x, front) {
                    } else if x != front {
                        assert(!ranks_before(scores, x, k));
                    }
                }
                assert(before =~= assigned);
                assert(comes_earlier(layers, k, top, front, step));
            },
        }
    }
}

/// Whether two lists of layers differ in nothing that counts for greedy allocation: their scores
/// compare alike, and their parameter counts are the same.
pub open spec fn alike(a: Seq<LayerSensitivity>, b: Seq<LayerSensitivity>) -> bool {
    &&& a.len() == b.len()
    &&& same_order(scores_of(a), scores_of(b))
    &&& forall|i: int| 0 <= i < a.len() ==> (#[trigger] a[i]).n_params == b[i].n_params
}

proof fn alike_total(a: Seq<LayerSensitivity>, b: Seq<LayerSensitivity>, n: int)
    requires
        alike(a, b),
        0 <= n <= a.len(),
    ensures
        total_params(a.take(n)) == total_params(b.take(n)),
    decreases n,
{
    if n > 0 {
        alike_total(a, b, n - 1);
        assert(a.take(n).drop_last() == a.take(n - 1));
        assert(b.take(n).drop_last() == b.take(n - 1));
        assert(a[n - 1].n_params == b[n - 1].n_params);
    }
}

proof fn alike_bits(
    a: Seq<LayerSensitivity>,
    b: Seq<LayerSensitivity>,
    assigned: Seq<AllocFormat>,
)
    requires
        alike(a, b),
        assigned.len() <= a.len(),
    ensures
        assigned_bits(a, assigned) == assigned_bits(b, assigned),
    decreases assigned.len(),
{
    if assigned.len() > 0 {
        alike_bits(a, b, assigned.drop_last());
        assert(a[assigned.len() - 1].n_params == b[assigned.len() - 1].n_params);
    }
}

proof fn alike_before(a: Seq<LayerSensitivity>, b: Seq<LayerSensitivity>, i: int, j: int)
    requires
        alike(a, b),
        0 <= i < a.len(),
        0 <= j < a.len(),
    ensures
        ranks_before(scores_of(a), i, j) == ranks_before(scores_of(b), i, j),
{
    let x = scores_of(a);
    let y = scores_of(b);
    assert(x[i] < x[j] <==> y[i] < y[j]);
    assert(x[j] < x[i] <==> y[j] < y[i]);
}

proof fn alike_state(
    a: Seq<LayerSensitivity>,
    b: Seq<LayerSensitivity>,
    formats: Seq<AllocFormat>,
    front: int,
    step: int,
)
    requires
        alike(a, b),
        0 <= front < a.len(),
    ensures
        upgraded_to(a, formats, front, step) == upgraded_to(b, formats, front, step),
{
    assert forall|i: int| 0 <= i < a.len() implies upgraded_to(a, formats, front, step)[i]
        == upgraded_to(b, formats, front, step)[i] by {
        alike_before(a, b, i, front);
        assert(a[i].n_params == b[i].n_params);
    }
    assert(upgraded_to(a, formats, front, step) =~= upgraded_to(b, formats, front, step));
}

proof fn alike_reaches(
    a: Seq<LayerSensitivity>,
    b: Seq<LayerSensitivity>,
    target: TargetBpp,
    assigned: Seq<AllocFormat>,
)
    requires
        alike(a, b),
        assigned.len() <= a.len(),
    ensures
        reaches_target(a, target, assigned) == reaches_target(b, target, assigned),
{
    alike_bits(a, b, assigned);
    alike_total(a, b, a.len() as int);
    assert(a.take(a.len() as int) == a);
    assert(b.take(b.len() as int) == b);
}

/// Greedy allocation looks at how scores compare and at nothing else about them.
pub proof fn greedy_depends_on_order_only(
    a: Seq<LayerSensitivity>,
    b: Seq<LayerSensitivity>,
    formats: Seq<AllocFormat>,
    target: TargetBpp,
    assigned: Seq<AllocFormat>,
)
    requires
        alike(a, b),
        is_greedy(a, formats, target, assigned),
    ensures
        is_greedy(b, formats, target, assigned),
{
    let (front, step) = choose|f: int, s: int| #[trigger]
        stops_at(a, formats, target, f, s) && assigned == upgraded_to(a, formats, f, s);
    let top = ladder(formats).len() - 1;
    alike_state(a, b, formats, front, step);
    alike_reaches(a, b, target, assigned);
    assert forall|f: int, s: int|
        0 <= f < b.len() && 0 <= s <= top && #[trigger] comes_earlier(
            b,
            f,
            s,
            front,
            step,
        ) implies !reaches_target(b, target, upgraded_to(b, formats, f, s)) by {
        alike_before(a, b, f, front);
        assert(comes_earlier(a, f, s, front, step));
        alike_state(a, b, formats, f, s);
        alike_reaches(a, b, target, upgraded_to(a, formats, f, s));
    }
    if !reaches_target(b, target, assigned) {
        assert forall|i: int| 0 <= i < b.len() && i != front implies #[trigger] ranks_before(
            scores_of(b),
            i,
            front,
        ) by {
            alike_before(a, b, i, front);
        }
    }
    assert(stops_at(b, formats, target, front, step));
}

/// Whether entry `k` of a list takes more bits than every entry before it.
spec fn tops_what_precedes(formats: Seq<AllocFormat>, k: int) -> bool {
    forall|j: int| 0 <= j < k ==> (#[trigger] formats[j]).bpp() < formats[k].bpp()
}

/// Whether a format takes no more bits than any on a list.
spec fn takes_least(formats: Seq<AllocFormat>, f: AllocFormat) -> bool {
    forall|j: int| 0 <= j < formats.len() ==> f.bpp() <= (#[trigger] formats[j]).bpp()
}

/// Whether a format takes no fewer bits than any on a list.
spec fn takes_most(formats: Seq<AllocFormat>, f: AllocFormat) -> bool {
    forall|j: int| 0 <= j < formats.len() ==> (#[trigger] formats[j]).bpp() <= f.bpp()
}

/// Reading on in the list keeps the steps that were climbed.
proof fn climb_keeps_steps(start: AllocFormat, formats: Seq<AllocFormat>, n: int, r: int)
    requires
        0 <= n <= formats.len(),
        0 <= r < climb(start, formats.take(n)).len(),
    ensures
        r < climb(start, formats).len(),
        climb(start, formats)[r] == climb(start, formats.take(n))[r],
    decreases formats.len() - n,
{
    climb_climbs(start, formats.take(n));
    if n < formats.len() {
        assert(formats.take(n + 1).drop_last() =~= formats.take(n));
        climb_keeps_steps(start, formats, n + 1, r);
    } else {
        assert(formats.take(n) =~= formats);
    }
}

/// The last step takes the most bits of the start and what was read.
proof fn climb_ends_highest(start: AllocFormat, formats: Seq<AllocFormat>)
    ensures
        climb(start, formats).len() >= 1,
        start.bpp() <= climb(start, formats).last().bpp(),
        takes_most(formats, climb(start, formats).last()),
        climb(start, formats).last() == start || formats.contains(climb(start, formats).last()),
    decreases formats.len(),
{
    climb_climbs(start, formats);
    if formats.len() > 0 {
        let rest = formats.drop_last();
        climb_ends_highest(start, rest);
        assert forall|j: int| 0 <= j < formats.len() implies (#[trigger] formats[j]).bpp() <= climb(
            start,
            formats,
        ).last().bpp() by {
            if j < rest.len() {
                assert(rest[j] == formats[j]);
            }
        }
        let top = climb(start, formats).last();
        if rest.contains(top) {
            let j = rest.index_of(top);
            assert(formats[j] == top);
        }
        if top == formats.last() {
            assert(formats[formats.len() - 1] == top);
        }
    }
}

/// A listed format that takes more bits than all before it and than the start is a step.
proof fn climb_has_tops(start: AllocFormat, formats: Seq<AllocFormat>, k: int)
    requires
        0 <= k < formats.len(),
        tops_what_precedes(formats, k),
        start.bpp() < formats[k].bpp(),
    ensures
        climb(start, formats).contains(formats[k]),
{
    let seen = formats.take(k);
    let next = formats.take(k + 1);
    climb_ends_highest(start, seen);
    let below = climb(start, seen);
    if seen.contains(below.last()) {
        let j = seen.index_of(below.last());
        assert(formats[j] == below.last());
    }
    assert(next.drop_last() =~= seen);
    assert(next.last() == formats[k]);
    let r = below.len() as int;
    assert(climb(start, next)[r] == formats[k]);
    climb_keeps_steps(start, formats, k + 1, r);
    assert(climb(start, formats)[r] == formats[k]);
}

/// Every step above the start is a listed format that takes more bits than all before it.
proof fn climb_has_tops_only(start: AllocFormat, formats: Seq<AllocFormat>, r: int)
    requires
        1 <= r < climb(start, formats).len(),
    ensures
        exists|k: int|
            0 <= k < formats.len() && #[trigger] formats[k] == climb(start, formats)[r]
                && tops_what_precedes(formats, k),
    decreases formats.len(),
{
    let rest = formats.drop_last();
    let below = climb(start, rest);
    if r < below.len() {
        climb_has_tops_only(start, rest, r);
        let k = choose|k: int|
            0 <= k < rest.len() && #[trigger] rest[k] == below[r] && tops_what_precedes(rest, k);
        assert(formats[k] == rest[k]);
        assert forall|j: int| 0 <= j < k implies (#[trigger] formats[j]).bpp() < formats[k].bpp() by {
            assert(rest[j] == formats[j]);
        }
    } else {
        let k = formats.len() - 1;
        climb_ends_highest(start, rest);
        assert forall|j: int| 0 <= j < k implies (#[trigger] formats[j]).bpp() < formats[k].bpp() by {
            assert(rest[j] == formats[j]);
        }
        assert(formats[k] == climb(start, formats)[r]);
    }
}

/// Every listed format that takes more bits than all listed before it, and more than the least, is
/// a step of the ladder.
pub proof fn ladder_misses_no_upgrade(formats: Seq<AllocFormat>, k: int)
    requires
        0 <= k < formats.len(),
        forall|j: int| 0 <= j < k ==> (#[trigger] formats[j]).bpp() < formats[k].bpp(),
    ensures
        (exists|j: int| 0 <= j < formats.len() && (#[trigger] formats[j]).bpp() < formats[k].bpp())
            ==> ladder(formats).contains(formats[k]),
        (forall|j: int| 0 <= j < formats.len() ==> formats[k].bpp() <= (#[trigger] formats[j]).bpp())
            ==> ladder(formats)[0] == formats[k],
{
    let c = cheapest(formats);
    cheapest_is_least(formats, k);
    ladder_climbs(formats);
    if c.bpp() < formats[k].bpp() {
        climb_has_tops(c, formats, k);
        let j = formats.index_of(c);
        assert(formats[j] == c);
        assert(!takes_least(formats, formats[k]));
    } else {
        bits_follow_precision(c, formats[k]);
        assert forall|j: int| 0 <= j < formats.len() implies formats[k].bpp() <= (
        #[trigger] formats[j]).bpp() by {
            cheapest_is_least(formats, j);
        }
    }
}

/// The ladder starts at a listed format that takes the least bits. Every further step is a listed
/// format that takes more bits than all listed before it, and than the step below.
pub proof fn ladder_has_upgrades_only(formats: Seq<AllocFormat>, r: int)
    requires
        formats.len() > 0,
        0 <= r < ladder(formats).len(),
    ensures
        formats.contains(ladder(formats)[r]),
        r == 0 ==> forall|j: int|
            0 <= j < formats.len() ==> ladder(formats)[r].bpp() <= (#[trigger] formats[j]).bpp(),
        r > 0 ==> ladder(formats)[r - 1].bpp() < ladder(formats)[r].bpp() && exists|k: int|
            0 <= k < formats.len() && #[trigger] formats[k] == ladder(formats)[r] && forall|j: int|
                0 <= j < k ==> (#[trigger] formats[j]).bpp() < formats[k].bpp(),
{
    let c = cheapest(formats);
    ladder_climbs(formats);
    cheapest_is_least(formats, 0);
    assert forall|j: int| 0 <= j < formats.len() implies c.bpp() <= (#[trigger] formats[j]).bpp() by {
        cheapest_is_least(formats, j);
    }
    if r > 0 {
        climb_has_tops_only(c, formats, r);
        let k = choose|k: int|
            0 <= k < formats.len() && #[trigger] formats[k] == ladder(formats)[r]
                && tops_what_precedes(formats, k);
        assert(formats.contains(formats[k]));
    }
}

/// The ladder ends at a listed format that takes the most bits.
pub proof fn ladder_reaches_the_top(formats: Seq<AllocFormat>)
    requires
        formats.len() > 0,
    ensures
        ladder(formats).len() >= 1,
        formats.contains(ladder(formats).last()),
        forall|j: int|
            0 <= j < formats.len() ==> (#[trigger] formats[j]).bpp() <= ladder(
                formats,
            ).last().bpp(),
{
    climb_ends_highest(cheapest(formats), formats);
    cheapest_is_least(formats, 0);
}

/// Moving one layer to another format moves the bits by that layer's parameters, times the bits
/// per parameter between the two formats.
pub proof fn bits_move_with_a_format(
    layers: Seq<LayerSensitivity>,
    assigned: Seq<AllocFormat>,
    i: int,
    f: AllocFormat,
)
    requires
        0 <= i < assigned.len() <= layers.len(),
    ensures
        assigned_bits(layers, assigned.update(i, f)) - assigned_bits(layers, assigned)
            == layers[i].n_params * (f.bpp() - assigned[i].bpp()),
{
    bits_after_update(layers, assigned, i, f);
    let n = layers[i].n_params as int;
    let x = f.bpp() as int;
    let y = assigned[i].bpp() as int;
    assert(n * (x - y) == n * x - n * y) by (nonlinear_arith);
}

/// Layers that are all in one format take its bits for each of their parameters.
pub proof fn one_format_takes_its_bits(
    layers: Seq<LayerSensitivity>,
    assigned: Seq<AllocFormat>,
    f: AllocFormat,
)
    requires
        assigned.len() <= layers.len(),
        forall|i: int| 0 <= i < assigned.len() ==> #[trigger] assigned[i] == f,
    ensures
        assigned_bits(layers, assigned) == total_params(layers.take(assigned.len() as int))
            * f.bpp(),
    decreases assigned.len(),
{
    let n = assigned.len() as int;
    if n > 0 {
        let rest = assigned.drop_last();
        assert forall|i: int| 0 <= i < rest.len() implies #[trigger] rest[i] == f by {
            assert(assigned[i] == f);
        }
        one_format_takes_its_bits(layers, rest, f);
        assert(layers.take(n).drop_last() =~= layers.take(n - 1));
        assert(assigned[n - 1] == f);
        let a = total_params(layers.take(n - 1)) as int;
        let b = layers[n - 1].n_params as int;
        let c = f.bpp() as int;
        assert(total_params(layers.take(n)) == a + b);
        assert((a + b) * c == a * c + b * c) by (nonlinear_arith);
        assert(assigned_bits(layers, rest) == a * c);
        assert(assigned_bits(layers, assigned) == a * c + b * c);
    } else {
        assert(layers.take(0) =~= Seq::<LayerSensitivity>::empty());
        assert(total_params(layers.take(0)) == 0);
        let c = f.bpp() as int;
        assert(0 * c == 0) by (nonlinear_arith);
    }
}

/// The greedy assignment averages no fewer bits than the target, or every layer that has
/// parameters takes the most bits that a listed format does.
pub proof fn greedy_spends_up_to_the_target(
    layers: Seq<LayerSensitivity>,
    formats: Seq<AllocFormat>,
    target: TargetBpp,
    assigned: Seq<AllocFormat>,
)
    requires
        formats.len() > 0,
        is_greedy(layers, formats, target, assigned),
    ensures
        assigned.len() == layers.len(),
        assigned_bits(layers, assigned) * target.params >= total_params(layers) * target.bits
            || forall|i: int, k: int|
            0 <= i < layers.len() && layers[i].n_params > 0 && 0 <= k < formats.len() ==> (
            #[trigger] formats[k]).bpp() <= (#[trigger] assigned[i]).bpp(),
{
    greedy_meets_target_or_tops_out(layers, formats, target, assigned);
    ladder_reaches_the_top(formats);
}

/// Every layer is in a listed format that takes the least bits, or that takes more bits than all
/// listed before it. A layer without parameters is not upgraded.
pub proof fn greedy_takes_steps_of_the_list(
    layers: Seq<LayerSensitivity>,
    formats: Seq<AllocFormat>,
    target: TargetBpp,
    assigned: Seq<AllocFormat>,
    i: int,
)
    requires
        formats.len() > 0,
        is_greedy(layers, formats, target, assigned),
        0 <= i < layers.len(),
    ensures
        formats.contains(assigned[i]),
        layers[i].n_params == 0 ==> forall|j: int|
            0 <= j < formats.len() ==> assigned[i].bpp() <= (#[trigger] formats[j]).bpp(),
        (exists|j: int| 0 <= j < formats.len() && (#[trigger] formats[j]).bpp() < assigned[i].bpp())
            ==> exists|k: int|
            0 <= k < formats.len() && #[trigger] formats[k] == assigned[i] && forall|j: int|
                0 <= j < k ==> (#[trigger] formats[j]).bpp() < formats[k].bpp(),
{
    let (front, step) = choose|f: int, s: int| #[trigger]
        stops_at(layers, formats, target, f, s) && assigned == upgraded_to(layers, formats, f, s);
    ladder_climbs(formats);
    let k = step_of(layers, ladder(formats).len() - 1, front, step, i);
    assert(assigned[i] == ladder(formats)[k]);
    ladder_has_upgrades_only(formats, k);
}

/// A layer is upgraded only once every more sensitive layer that has parameters takes the most
/// bits that a listed format does. Of equal scores the layer given first counts as more sensitive.
pub proof fn greedy_fills_the_most_sensitive_first(
    layers: Seq<LayerSensitivity>,
    formats: Seq<AllocFormat>,
    target: TargetBpp,
    assigned: Seq<AllocFormat>,
    i: int,
    j: int,
    m: int,
    k: int,
)
    requires
        is_greedy(layers, formats, target, assigned),
        0 <= i < layers.len(),
        0 <= j < layers.len(),
        layers[i].n_params > 0,
        layers[i].score > layers[j].score || (layers[i].score == layers[j].score && i < j),
        0 <= m < formats.len(),
        formats[m].bpp() < assigned[j].bpp(),
        0 <= k < formats.len(),
    ensures
        formats[k].bpp() <= assigned[i].bpp(),
{
    let (front, step) = choose|f: int, s: int| #[trigger]
        stops_at(layers, formats, target, f, s) && assigned == upgraded_to(layers, formats, f, s);
    let scores = scores_of(layers);
    let top = ladder(formats).len() - 1;
    ladder_climbs(formats);
    ladder_reaches_the_top(formats);
    ladder_has_upgrades_only(formats, 0);
    assert(ranks_before(scores, i, j));
    assert(step_of(layers, top, front, step, j) != 0);
    assert(ranks_before(scores, i, front));
    assert(assigned[i] == ladder(formats)[top]);
}

/// Upgrading stops as soon as the target is met: with the last upgraded layer one step lower, or
/// any number of steps, the average is below the target.
pub proof fn greedy_stops_at_the_target(
    layers: Seq<LayerSensitivity>,
    formats: Seq<AllocFormat>,
    target: TargetBpp,
    assigned: Seq<AllocFormat>,
    i: int,
    k: int,
)
    requires
        is_greedy(layers, formats, target, assigned),
        0 <= i < layers.len(),
        0 <= k < formats.len(),
        (forall|j: int| 0 <= j < k ==> (#[trigger] formats[j]).bpp() < formats[k].bpp()) || (
        forall|j: int| 0 <= j < formats.len() ==> formats[k].bpp() <= (#[trigger] formats[j]).bpp()),
        formats[k].bpp() < assigned[i].bpp(),
        forall|j: int, m: int|
            0 <= j < layers.len() && (layers[i].score > (#[trigger] layers[j]).score || (
            layers[i].score == layers[j].score && i < j)) && 0 <= m < formats.len()
                ==> assigned[j].bpp() <= (#[trigger] formats[m]).bpp(),
    ensures
        assigned_bits(layers, assigned.update(i, formats[k])) * target.params < total_params(layers)
            * target.bits,
{
    let (front, step) = choose|f: int, s: int| #[trigger]
        stops_at(layers, formats, target, f, s) && assigned == upgraded_to(layers, formats, f, s);
    let scores = scores_of(layers);
    let rungs = ladder(formats);
    let top = rungs.len() - 1;
    ladder_climbs(formats);
    ladder_has_upgrades_only(formats, 0);
    let s = if takes_least(formats, formats[k]) {
        let c = rungs[0];
        let m = formats.index_of(c);
        assert(formats[m] == c);
        assert(formats[k].bpp() <= formats[m].bpp());
        bits_follow_precision(c, formats[k]);
        0
    } else {
        ladder_misses_no_upgrade(formats, k);
        rungs.index_of(formats[k])
    };
    assert(0 <= s <= top && rungs[s] == formats[k]);
    let here = step_of(layers, top, front, step, i);
    assert(assigned[i] == rungs[here]);
    if s >= here {
        if s > here {
            assert(rungs[here].bpp() < rungs[s].bpp());
        }
        assert(false);
    }
    let before = upgraded_to(layers, formats, i, s);
    assert(comes_earlier(layers, i, s, front, step));
    assert forall|x: int| 0 <= x < layers.len() implies before[x] == assigned.update(
        i,
        formats[k],
    )[x] by {
        if x != i {
            let at = step_of(layers, top, front, step, x);
            assert(assigned[x] == rungs[at]);
            if ranks_before(scores, x, i) {
                assert(i == front || ranks_before(scores, i, front));
                assert(x != front);
                assert(ranks_before(scores, x, front));
            } else {
                assert(ranks_before(scores, i, x));
                assert(layers[i].score > layers[x].score || (layers[i].score == layers[x].score && i
                    < x));
                if at > 0 {
                    let c = rungs[0];
                    let m = formats.index_of(c);
                    assert(formats[m] == c);
                    assert(rungs[0].bpp() < rungs[at].bpp());
                    assert(assigned[x].bpp() <= formats[m].bpp());
                }
            }
        }
    }
    assert(before =~= assigned.update(i, formats[k]));
    assert(!reaches_target(layers, target, before));
}

} // verus!
