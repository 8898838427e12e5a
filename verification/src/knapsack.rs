//! Choosing one format per layer by dynamic programming over the bit budget.
use crate::format::AllocFormat;
use crate::sensitivity::LayerSensitivity;
use vstd::prelude::*;

verus! {

/// Whether the gains of that many layers can be summed in 128 bits.
pub open spec fn gains_fit(n: int) -> bool {
    n <= 0x0800_0000_0000_0000
}

/// Bound on the gains held in a table.
const GAIN_LIMIT: i128 = 0x4000_0000_0000_0000_0000_0000_0000_0000;

/// One format index for each of the first `n` layers.
pub open spec fn valid_picks(n: int, formats: Seq<AllocFormat>, picks: Seq<usize>) -> bool {
    &&& picks.len() == n
    &&& forall|i: int| 0 <= i < n ==> #[trigger] picks[i] < formats.len()
}

/// Bits that the picked formats take.
pub open spec fn picked_bits(
    layers: Seq<LayerSensitivity>,
    formats: Seq<AllocFormat>,
    picks: Seq<usize>,
) -> int
    decreases picks.len(),
{
    if picks.len() == 0 {
        0
    } else {
        picked_bits(layers, formats, picks.drop_last()) + layers[picks.len() - 1].n_params
            * formats[picks.last() as int].bpp()
    }
}

/// Sensitivity that the picked formats retain: score times bits per parameter.
pub open spec fn picked_gain(
    layers: Seq<LayerSensitivity>,
    formats: Seq<AllocFormat>,
    picks: Seq<usize>,
) -> int
    decreases picks.len(),
{
    if picks.len() == 0 {
        0
    } else {
        picked_gain(layers, formats, picks.drop_last()) + layers[picks.len() - 1].score
            * formats[picks.last() as int].bpp()
    }
}

/// Loss of the picked formats: score times the bits per parameter saved against BF16.
pub open spec fn picked_loss(
    layers: Seq<LayerSensitivity>,
    formats: Seq<AllocFormat>,
    picks: Seq<usize>,
) -> int
    decreases picks.len(),
{
    if picks.len() == 0 {
        0
    } else {
        picked_loss(layers, formats, picks.drop_last()) + layers[picks.len() - 1].score * (
        AllocFormat::Bf16.bpp() - formats[picks.last() as int].bpp())
    }
}

/// Order of equally long picks that looks at the last layer first.
pub open spec fn picks_no_later(a: Seq<usize>, b: Seq<usize>) -> bool
    decreases a.len(),
{
    if a.len() == 0 || b.len() == 0 {
        true
    } else {
        a.last() < b.last() || (a.last() == b.last() && picks_no_later(
            a.drop_last(),
            b.drop_last(),
        ))
    }
}

/// Whether `a` is chosen over `b`: by lower loss, then by more bits, then by earlier formats.
pub open spec fn preferred(
    layers: Seq<LayerSensitivity>,
    formats: Seq<AllocFormat>,
    a: Seq<usize>,
    b: Seq<usize>,
) -> bool {
    let loss_a = picked_loss(layers, formats, a);
    let loss_b = picked_loss(layers, formats, b);
    let bits_a = picked_bits(layers, formats, a);
    let bits_b = picked_bits(layers, formats, b);
    loss_a < loss_b || (loss_a == loss_b && (bits_a > bits_b || (bits_a == bits_b
        && picks_no_later(a, b))))
}

/// Whether a pick for every layer stays within the budget.
pub open spec fn within_budget(
    layers: Seq<LayerSensitivity>,
    formats: Seq<AllocFormat>,
    budget: int,
    picks: Seq<usize>,
) -> bool {
    valid_picks(layers.len() as int, formats, picks) && picked_bits(layers, formats, picks)
        <= budget
}

/// The best pick within the budget.
pub open spec fn best_picks(
    layers: Seq<LayerSensitivity>,
    formats: Seq<AllocFormat>,
    budget: int,
    picks: Seq<usize>,
) -> bool {
    &&& within_budget(layers, formats, budget, picks)
    &&& forall|other: Seq<usize>| #[trigger]
        within_budget(layers, formats, budget, other) ==> preferred(layers, formats, picks, other)
}

/// The first format of greatest retained sensitivity for one layer.
pub open spec fn first_best_format(
    layer: LayerSensitivity,
    formats: Seq<AllocFormat>,
    pick: usize,
) -> bool {
    &&& pick < formats.len()
    &&& forall|g: int|
        0 <= g < formats.len() ==> {
            let here = layer.score * formats[pick as int].bpp();
            let there = layer.score * (#[trigger] formats[g]).bpp();
            there < here || (there == here && pick <= g)
        }
}

/// What is picked where nothing fits the budget: the first format for every layer, but for
/// leading layers without parameters, which take their best format.
pub open spec fn fallback_picks(
    layers: Seq<LayerSensitivity>,
    formats: Seq<AllocFormat>,
    picks: Seq<usize>,
) -> bool {
    &&& picks.len() == layers.len()
    &&& forall|i: int|
        0 <= i < layers.len() ==> if weightless(layers, i + 1) {
            first_best_format(layers[i], formats, #[trigger] picks[i])
        } else {
            picks[i] == 0
        }
}

/// Whether none of the first `n` layers has a parameter.
pub open spec fn weightless(layers: Seq<LayerSensitivity>, n: int) -> bool {
    forall|i: int| 0 <= i < n ==> (#[trigger] layers[i]).n_params == 0
}

/// The picks for the first `l` layers that the choice tables record for `w` bits.
spec fn trace(
    layers: Seq<LayerSensitivity>,
    formats: Seq<AllocFormat>,
    choice: Seq<Vec<usize>>,
    l: int,
    w: int,
) -> Seq<usize>
    decreases l,
{
    if l <= 0 {
        Seq::empty()
    } else {
        let f = choice[l - 1]@[w];
        trace(
            layers,
            formats,
            choice,
            l - 1,
            w - layers[l - 1].n_params * formats[f as int].bpp(),
        ).push(f)
    }
}

/// Whether a table cell and a trace tell the best pick of exactly `w` bits for `l` layers.
spec fn cell_ok(
    layers: Seq<LayerSensitivity>,
    formats: Seq<AllocFormat>,
    l: int,
    w: int,
    cell: Option<i128>,
    tr: Seq<usize>,
) -> bool {
    match cell {
        None => forall|p: Seq<usize>| #[trigger]
            valid_picks(l, formats, p) ==> picked_bits(layers, formats, p) != w,
        Some(g) => {
            &&& valid_picks(l, formats, tr)
            &&& picked_bits(layers, formats, tr) == w
            &&& picked_gain(layers, formats, tr) == g
            &&& forall|p: Seq<usize>| #[trigger]
                valid_picks(l, formats, p) && picked_bits(layers, formats, p) == w ==> {
                    let h = picked_gain(layers, formats, p);
                    h < g || (h == g && picks_no_later(tr, p))
                }
        },
    }
}

/// Whether a whole row of the table is right for the first `l` layers.
spec fn row_ok(
    layers: Seq<LayerSensitivity>,
    formats: Seq<AllocFormat>,
    l: int,
    row: Seq<Option<i128>>,
    choice: Seq<Vec<usize>>,
) -> bool {
    &&& choice.len() == l
    &&& forall|k: int| 0 <= k < l ==> (#[trigger] choice[k])@.len() == row.len()
    &&& forall|w: int|
        0 <= w < row.len() ==> cell_ok(
            layers,
            formats,
            l,
            w,
            #[trigger] row[w],
            trace(layers, formats, choice, l, w),
        )
}

/// Whether the cell for `w` bits is the best step from the previous row with a format
/// before `limit`.
spec fn step_ok(
    layer: LayerSensitivity,
    formats: Seq<AllocFormat>,
    prev: Seq<Option<i128>>,
    limit: int,
    w: int,
    cell: Option<i128>,
    pick: usize,
) -> bool {
    match cell {
        None => pick == 0 && forall|f: int|
            0 <= f < limit ==> !reaches(layer, #[trigger] formats[f], prev, w),
        Some(g) => {
            &&& pick < limit
            &&& reaches(layer, formats[pick as int], prev, w)
            &&& g == stepped(layer, formats[pick as int], prev, w)
            &&& forall|f: int|
                0 <= f < limit && reaches(layer, #[trigger] formats[f], prev, w) ==> {
                    let h = stepped(layer, formats[f], prev, w);
                    h < g || (h == g && pick <= f)
                }
        },
    }
}

/// Whether `w` bits can be reached from the previous row with `fmt` for the layer.
spec fn reaches(
    layer: LayerSensitivity,
    fmt: AllocFormat,
    prev: Seq<Option<i128>>,
    w: int,
) -> bool {
    let from = w - layer.n_params * fmt.bpp();
    0 <= from && prev[from] is Some
}

/// The gain so reached.
spec fn stepped(
    layer: LayerSensitivity,
    fmt: AllocFormat,
    prev: Seq<Option<i128>>,
    w: int,
) -> int {
    prev[w - layer.n_params * fmt.bpp()]->0 + layer.score * fmt.bpp()
}

proof fn valid_drop(l: int, formats: Seq<AllocFormat>, p: Seq<usize>)
    requires
        valid_picks(l + 1, formats, p),
        l >= 0,
    ensures
        valid_picks(l, formats, p.drop_last()),
        p.last() < formats.len(),
{
    assert(p[l] < formats.len());
    assert forall|i: int| 0 <= i < l implies #[trigger] p.drop_last()[i] < formats.len() by {
        assert(p[i] < formats.len());
    }
}

proof fn bits_nonneg(layers: Seq<LayerSensitivity>, formats: Seq<AllocFormat>, p: Seq<usize>)
    ensures
        picked_bits(layers, formats, p) >= 0,
    decreases p.len(),
{
    if p.len() > 0 {
        bits_nonneg(layers, formats, p.drop_last());
        let n = layers[p.len() - 1].n_params;
        let b = formats[p.last() as int].bpp();
        assert(n * b >= 0) by (nonlinear_arith)
            requires
                n >= 0,
                b >= 0,
        ;
    }
}

/// A cell that is the best single step from a right row is right itself.
proof fn step_is_right(
    layers: Seq<LayerSensitivity>,
    formats: Seq<AllocFormat>,
    l: int,
    w: int,
    prev: Seq<Option<i128>>,
    choice: Seq<Vec<usize>>,
    cell: Option<i128>,
    pick: usize,
    tr: Seq<usize>,
)
    requires
        0 <= l < layers.len(),
        0 <= w < prev.len(),
        row_ok(layers, formats, l, prev, choice),
        step_ok(layers[l], formats, prev, formats.len() as int, w, cell, pick),
        cell is Some ==> tr == trace(
            layers,
            formats,
            choice,
            l,
            w - layers[l].n_params * formats[pick as int].bpp(),
        ).push(pick),
    ensures
        cell_ok(layers, formats, l + 1, w, cell, tr),
{
    let layer = layers[l];
    assert forall|p: Seq<usize>| #[trigger]
        valid_picks(l + 1, formats, p) && picked_bits(layers, formats, p) == w implies {
        &&& cell is Some
        &&& picked_gain(layers, formats, p) < cell->0 || (picked_gain(layers, formats, p)
            == cell->0 && picks_no_later(tr, p))
    } by {
        valid_drop(l, formats, p);
        let head = p.drop_last();
        let f = p.last() as int;
        let from = w - layer.n_params * formats[f].bpp();
        bits_nonneg(layers, formats, head);
        assert(picked_bits(layers, formats, head) == from);
        assert(layer.n_params * formats[f].bpp() >= 0) by (nonlinear_arith)
            requires
                layer.n_params >= 0,
                formats[f].bpp() >= 0,
        ;
        let tr_from = trace(layers, formats, choice, l, from);
        assert(cell_ok(layers, formats, l, from, prev[from], tr_from));
        assert(prev[from] is Some);
        assert(reaches(layer, formats[f], prev, w));
        assert(cell is Some);
        if pick == f {
            assert(tr.drop_last() == tr_from);
            assert(tr.last() == pick);
        } else {
            assert(tr.last() == pick);
        }
    }
    if cell is Some {
        let from = w - layer.n_params * formats[pick as int].bpp();
        assert(layer.n_params * formats[pick as int].bpp() >= 0) by (nonlinear_arith)
            requires
                layer.n_params >= 0,
                formats[pick as int].bpp() >= 0,
        ;
        let tr_from = trace(layers, formats, choice, l, from);
        assert(cell_ok(layers, formats, l, from, prev[from], tr_from));
        assert(tr.drop_last() == tr_from);
        assert(tr.last() == pick);
        assert forall|i: int| 0 <= i < l + 1 implies #[trigger] tr[i] < formats.len() by {
            if i < l {
                assert(tr[i] == tr_from[i]);
            }
        }
    }
}

/// The table row after one more layer, with the format picked in each cell.
fn next_row(layer: &LayerSensitivity, formats: &[AllocFormat], prev: &Vec<Option<i128>>) -> (r: (
    Vec<Option<i128>>,
    Vec<usize>,
))
    requires
        forall|w: int|
            0 <= w < prev@.len() && (#[trigger] prev@[w]) is Some ==> -GAIN_LIMIT <= prev@[w]->0
                <= GAIN_LIMIT,
    ensures
        r.0@.len() == prev@.len(),
        r.1@.len() == prev@.len(),
        forall|w: int|
            0 <= w < prev@.len() ==> step_ok(
                *layer,
                formats@,
                prev@,
                formats@.len() as int,
                w,
                #[trigger] r.0@[w],
                r.1@[w],
            ),
{
    let bins: usize = prev.len();
    let mut row: Vec<Option<i128>> = Vec::new();
    let mut picks: Vec<usize> = Vec::new();
    for k in 0..bins
        invariant
            row@.len() == k,
            picks@.len() == k,
            forall|w: int| 0 <= w < k ==> (#[trigger] row@[w]) is None && picks@[w] == 0,
    {
        row.push(None);
        picks.push(0);
    }
    for f in 0..formats.len()
        invariant
            bins == prev@.len(),
            row@.len() == bins,
            picks@.len() == bins,
            forall|w: int|
                0 <= w < prev@.len() && (#[trigger] prev@[w]) is Some ==> -GAIN_LIMIT
                    <= prev@[w]->0 <= GAIN_LIMIT,
            forall|w: int|
                0 <= w < bins ==> step_ok(
                    *layer,
                    formats@,
                    prev@,
                    f as int,
                    w,
                    #[trigger] row@[w],
                    picks@[w],
                ),
    {
        let bpp: u64 = formats[f].effective_bpp();
        let params: u128 = layer.n_params as u128;
        let score: i128 = layer.score as i128;
        assert(params * bpp <= 0x10_0000_0000_0000_0000) by (nonlinear_arith)
            requires
                0 <= params <= 0x1_0000_0000_0000_0000,
                0 <= bpp <= 16,
        ;
        assert(-0x8_0000_0000_0000_0000 <= score * bpp <= 0x8_0000_0000_0000_0000)
            by (nonlinear_arith)
            requires
                -0x8000_0000_0000_0000 <= score <= 0x8000_0000_0000_0000,
                0 <= bpp <= 16,
        ;
        let weight: u128 = params * bpp as u128;
        if weight < bins as u128 {
            let step: usize = weight as usize;
            let value: i128 = score * bpp as i128;
            assert forall|w: int| 0 <= w < step implies step_ok(
                *layer,
                formats@,
                prev@,
                f + 1,
                w,
                #[trigger] row@[w],
                picks@[w],
            ) by {
                assert(step_ok(*layer, formats@, prev@, f as int, w, row@[w], picks@[w]));
                assert(!reaches(*layer, formats@[f as int], prev@, w));
            }
            for b in 0..(bins - step)
                invariant
                    bins == prev@.len(),
                    row@.len() == bins,
                    picks@.len() == bins,
                    step < bins,
                    f < formats@.len(),
                    step == layer.n_params * formats@[f as int].bpp(),
                    value == layer.score * formats@[f as int].bpp(),
                    -0x8_0000_0000_0000_0000 <= value <= 0x8_0000_0000_0000_0000,
                    forall|w: int|
                        0 <= w < prev@.len() && (#[trigger] prev@[w]) is Some ==> -GAIN_LIMIT
                            <= prev@[w]->0 <= GAIN_LIMIT,
                    forall|w: int|
                        0 <= w < b + step ==> step_ok(
                            *layer,
                            formats@,
                            prev@,
                            f + 1,
                            w,
                            #[trigger] row@[w],
                            picks@[w],
                        ),
                    forall|w: int|
                        b + step <= w < bins ==> step_ok(
                            *layer,
                            formats@,
                            prev@,
                            f as int,
                            w,
                            #[trigger] row@[w],
                            picks@[w],
                        ),
            {
                let ghost before = row@;
                let ghost picks_before = picks@;
                let t: usize = b + step;
                assert(step_ok(*layer, formats@, prev@, f as int, t as int, row@[t as int], picks@[t as int]));
                if let Some(g) = prev[b] {
                    let cand: i128 = g + value;
                    let better: bool = match row[t] {
                        None => true,
                        Some(h) => cand > h,
                    };
                    if better {
                        row.set(t, Some(cand));
                        picks.set(t, f);
                    }
                    assert(reaches(*layer, formats@[f as int], prev@, t as int));
                    assert(stepped(*layer, formats@[f as int], prev@, t as int) == cand);
                } else {
                    assert(!reaches(*layer, formats@[f as int], prev@, t as int));
                }
                assert(step_ok(*layer, formats@, prev@, f + 1, t as int, row@[t as int], picks@[t as int]));
            }
        } else {
            assert forall|w: int| 0 <= w < bins implies step_ok(
                *layer,
                formats@,
                prev@,
                f + 1,
                w,
                #[trigger] row@[w],
                picks@[w],
            ) by {
                assert(step_ok(*layer, formats@, prev@, f as int, w, row@[w], picks@[w]));
                assert(!reaches(*layer, formats@[f as int], prev@, w));
            }
        }
    }
    (row, picks)
}

/// Sixteen bits per parameter for the first `n` layers, each weighed by its score.
spec fn full_gain(layers: Seq<LayerSensitivity>, n: int) -> int
    decreases n,
{
    if n <= 0 {
        0
    } else {
        full_gain(layers, n - 1) + layers[n - 1].score * AllocFormat::Bf16.bpp()
    }
}

/// Loss is what retained sensitivity falls short of BF16 throughout.
proof fn loss_is_missing_gain(
    layers: Seq<LayerSensitivity>,
    formats: Seq<AllocFormat>,
    p: Seq<usize>,
)
    ensures
        picked_loss(layers, formats, p) == full_gain(layers, p.len() as int) - picked_gain(
            layers,
            formats,
            p,
        ),
    decreases p.len(),
{
    if p.len() > 0 {
        loss_is_missing_gain(layers, formats, p.drop_last());
        let s = layers[p.len() - 1].score as int;
        let top = AllocFormat::Bf16.bpp() as int;
        let b = formats[p.last() as int].bpp() as int;
        assert(s * (top - b) == s * top - s * b) by (nonlinear_arith);
    }
}

proof fn gain_bound(layers: Seq<LayerSensitivity>, formats: Seq<AllocFormat>, p: Seq<usize>)
    ensures
        -(p.len() * 0x8_0000_0000_0000_0000) <= picked_gain(layers, formats, p) <= p.len()
            * 0x8_0000_0000_0000_0000,
    decreases p.len(),
{
    if p.len() > 0 {
        gain_bound(layers, formats, p.drop_last());
        let s = layers[p.len() - 1].score as int;
        let b = formats[p.last() as int].bpp() as int;
        assert(-0x8_0000_0000_0000_0000 <= s * b <= 0x8_0000_0000_0000_0000)
            by (nonlinear_arith)
            requires
                -0x8000_0000_0000_0000 <= s <= 0x8000_0000_0000_0000,
                0 <= b <= 16,
        ;
    }
}

/// The trace over the first `l` layers only looks at the first `l` choice tables.
proof fn trace_of_prefix(
    layers: Seq<LayerSensitivity>,
    formats: Seq<AllocFormat>,
    a: Seq<Vec<usize>>,
    b: Seq<Vec<usize>>,
    l: int,
    w: int,
)
    requires
        forall|k: int| 0 <= k < l ==> a[k] == b[k],
    ensures
        trace(layers, formats, a, l, w) == trace(layers, formats, b, l, w),
    decreases l,
{
    if l > 0 {
        let f = a[l - 1]@[w];
        trace_of_prefix(
            layers,
            formats,
            a,
            b,
            l - 1,
            w - layers[l - 1].n_params * formats[f as int].bpp(),
        );
    }
}

/// Picks take no bits exactly where no layer has parameters.
proof fn no_bits_iff_weightless(
    layers: Seq<LayerSensitivity>,
    formats: Seq<AllocFormat>,
    p: Seq<usize>,
)
    requires
        p.len() <= layers.len(),
    ensures
        picked_bits(layers, formats, p) == 0 <==> weightless(layers, p.len() as int),
    decreases p.len(),
{
    if p.len() > 0 {
        let head = p.drop_last();
        no_bits_iff_weightless(layers, formats, head);
        bits_nonneg(layers, formats, head);
        let n = layers[p.len() - 1].n_params as int;
        let b = formats[p.last() as int].bpp() as int;
        assert(n * b >= 0 && (n * b == 0 <==> n == 0)) by (nonlinear_arith)
            requires
                n >= 0,
                b >= 4,
        ;
        if weightless(layers, p.len() as int) {
            assert(layers[p.len() - 1].n_params == 0);
        }
    }
}

/// What the choice tables record for an empty budget.
spec fn zero_column_ok(
    layers: Seq<LayerSensitivity>,
    formats: Seq<AllocFormat>,
    choice: Seq<Vec<usize>>,
    k: int,
) -> bool {
    if weightless(layers, k + 1) {
        first_best_format(layers[k], formats, choice[k]@[0])
    } else {
        choice[k]@[0] == 0
    }
}

proof fn zero_column(
    layers: Seq<LayerSensitivity>,
    formats: Seq<AllocFormat>,
    choice: Seq<Vec<usize>>,
    l: int,
    cell: Option<i128>,
)
    requires
        0 <= l < layers.len(),
        0 < formats.len() <= usize::MAX,
        choice.len() == l + 1,
        cell_ok(layers, formats, l + 1, 0, cell, trace(layers, formats, choice, l + 1, 0)),
        cell is None ==> choice[l]@[0] == 0,
    ensures
        zero_column_ok(layers, formats, choice, l),
{
    let tr = trace(layers, formats, choice, l + 1, 0);
    let f = choice[l]@[0];
    if weightless(layers, l + 1) {
        let zeros = Seq::new((l + 1) as nat, |i: int| 0usize);
        no_bits_iff_weightless(layers, formats, zeros);
        assert(valid_picks(l + 1, formats, zeros));
        assert(cell is Some);
        assert(tr.last() == f);
        assert(tr[l] < formats.len());
        let layer = layers[l];
        assert forall|g: int| 0 <= g < formats.len() implies {
            let here = layer.score * formats[f as int].bpp();
            let there = layer.score * (#[trigger] formats[g]).bpp();
            there < here || (there == here && f <= g)
        } by {
            let p = tr.drop_last().push(g as usize);
            assert(p.drop_last() == tr.drop_last());
            assert forall|i: int| 0 <= i < l + 1 implies #[trigger] p[i] < formats.len() by {
                if i < l {
                    assert(p[i] == tr[i]);
                }
            }
            assert(valid_picks(l + 1, formats, p));
            no_bits_iff_weightless(layers, formats, p);
        }
    } else {
        if cell is Some {
            no_bits_iff_weightless(layers, formats, tr);
        }
    }
}

/// The picks of lowest loss within the budget; ties go to more bits, then to earlier formats
/// for later layers.
pub fn knapsack_picks(
    layers: &[LayerSensitivity],
    formats: &[AllocFormat],
    budget: usize,
) -> (r: Vec<usize>)
    requires
        formats@.len() > 0,
        gains_fit(layers@.len() as int),
        budget < usize::MAX,
    ensures
        valid_picks(layers@.len() as int, formats@, r@),
        (exists|p: Seq<usize>| within_budget(layers@, formats@, budget as int, p)) ==> best_picks(
            layers@,
            formats@,
            budget as int,
            r@,
        ),
        !(exists|p: Seq<usize>| within_budget(layers@, formats@, budget as int, p))
            ==> fallback_picks(layers@, formats@, r@),
{
    let bins: usize = budget + 1;
    let kinds: usize = formats.len();
    let ghost ls = layers@;
    let ghost fs = formats@;
    let mut row: Vec<Option<i128>> = Vec::new();
    row.push(Some(0));
    while row.len() < bins
        invariant
            1 <= row@.len() <= bins,
            row@[0] == Some(0i128),
            forall|w: int| 1 <= w < row@.len() ==> (#[trigger] row@[w]) is None,
        decreases bins - row@.len(),
    {
        row.push(None);
    }
    let mut choice: Vec<Vec<usize>> = Vec::new();
    assert(row_ok(ls, fs, 0, row@, choice@)) by {
        assert forall|w: int| 0 <= w < row@.len() implies cell_ok(
            ls,
            fs,
            0,
            w,
            #[trigger] row@[w],
            trace(ls, fs, choice@, 0, w),
        ) by {
            assert forall|p: Seq<usize>| #[trigger] valid_picks(0, fs, p) implies p
                == Seq::<usize>::empty() by {}
        }
    }
    for l in 0..layers.len()
        invariant
            ls == layers@,
            fs == formats@,
            fs.len() == kinds,
            kinds > 0,
            gains_fit(ls.len() as int),
            bins >= 1,
            row@.len() == bins,
            row_ok(ls, fs, l as int, row@, choice@),
            forall|k: int| 0 <= k < l ==> #[trigger] zero_column_ok(ls, fs, choice@, k),
    {
        assert forall|w: int| 0 <= w < row@.len() && (#[trigger] row@[w]) is Some implies
            -GAIN_LIMIT <= row@[w]->0 <= GAIN_LIMIT by {
            let tr = trace(ls, fs, choice@, l as int, w);
            assert(cell_ok(ls, fs, l as int, w, row@[w], tr));
            gain_bound(ls, fs, tr);
        }
        let (next, picked) = next_row(&layers[l], formats, &row);
        let ghost prev = row@;
        let ghost old_choice = choice@;
        choice.push(picked);
        assert forall|w: int| 0 <= w < next@.len() implies cell_ok(
            ls,
            fs,
            l + 1,
            w,
            #[trigger] next@[w],
            trace(ls, fs, choice@, l + 1, w),
        ) by {
            let pick = picked@[w];
            let from = w - ls[l as int].n_params * fs[pick as int].bpp();
            assert(step_ok(ls[l as int], fs, prev, fs.len() as int, w, next@[w], pick));
            trace_of_prefix(ls, fs, old_choice, choice@, l as int, from);
            step_is_right(
                ls,
                fs,
                l as int,
                w,
                prev,
                old_choice,
                next@[w],
                pick,
                trace(ls, fs, choice@, l + 1, w),
            );
        }
        assert forall|k: int| 0 <= k < l + 1 implies #[trigger] zero_column_ok(
            ls,
            fs,
            choice@,
            k,
        ) by {
            if k < l {
                assert(zero_column_ok(ls, fs, old_choice, k));
                assert(choice@[k] == old_choice[k]);
            } else {
                assert(step_ok(ls[k], fs, prev, fs.len() as int, 0, next@[0], picked@[0]));
                zero_column(ls, fs, choice@, l as int, next@[0]);
            }
        }
        row = next;
    }
    let count: usize = layers.len();
    let mut best: Option<usize> = None;
    for w in 0..bins
        invariant
            row@.len() == bins,
            best matches Some(b) ==> b < w && row@[b as int] is Some && forall|x: int|
                0 <= x < w && (#[trigger] row@[x]) is Some ==> row@[x]->0 < row@[b as int]->0 || (
                row@[x]->0 == row@[b as int]->0 && x <= b),
            best is None ==> forall|x: int| 0 <= x < w ==> (#[trigger] row@[x]) is None,
    {
        if let Some(g) = row[w] {
            let better: bool = match best {
                None => true,
                Some(b) => match row[b] {
                    None => true,
                    Some(h) => h <= g,
                },
            };
            if better {
                best = Some(w);
            }
        }
    }
    let mut cur: usize = match best {
        Some(b) => b,
        None => 0,
    };
    let ghost start = cur as int;
    let ghost tr = trace(ls, fs, choice@, count as int, start);
    let mut picks: Vec<usize> = Vec::new();
    for k in 0..count
        invariant
            picks@.len() == k,
    {
        picks.push(0);
    }
    let mut l: usize = count;
    proof {
        assert(cell_ok(ls, fs, count as int, start, row@[start], tr));
        if best is Some {
            assert(tr.take(count as int) == tr);
        }
    }
    while l > 0
        invariant
            ls == layers@,
            fs == formats@,
            fs.len() > 0,
            count == ls.len(),
            l <= count,
            picks@.len() == count,
            choice@.len() == count,
            0 <= start < bins,
            forall|k: int| 0 <= k < count ==> (#[trigger] choice@[k])@.len() == bins,
            forall|k: int| 0 <= k < count ==> #[trigger] zero_column_ok(ls, fs, choice@, k),
            best is Some ==> valid_picks(count as int, fs, tr) && picked_bits(ls, fs, tr) == start
                && cur <= start && cur == picked_bits(ls, fs, tr.take(l as int)) && trace(
                ls,
                fs,
                choice@,
                l as int,
                cur as int,
            ) == tr.take(l as int) && forall|i: int| l <= i < count ==> picks@[i] == tr[i],
            best is None ==> cur == 0 && forall|i: int|
                l <= i < count ==> #[trigger] picks@[i] == choice@[i]@[0],
        decreases l,
    {
        l = l - 1;
        let f: usize = choice[l][cur];
        proof {
            if best is Some {
                let t1 = tr.take(l + 1);
                assert(t1.drop_last() == tr.take(l as int));
                assert(t1.last() == tr[l as int]);
                let t0 = trace(
                    ls,
                    fs,
                    choice@,
                    l as int,
                    cur - ls[l as int].n_params * fs[f as int].bpp(),
                );
                assert(trace(ls, fs, choice@, l + 1, cur as int) == t0.push(f));
                assert(t0.push(f).last() == f);
                assert(t0.push(f).drop_last() == t0);
                bits_nonneg(ls, fs, tr.take(l as int));
                assert(tr[l as int] < fs.len());
            } else {
                assert(zero_column_ok(ls, fs, choice@, l as int));
            }
        }
        picks.set(l, f);
        let bpp: u64 = formats[f].effective_bpp();
        let params: u128 = layers[l].n_params as u128;
        assert(0 <= params * bpp <= 0x10_0000_0000_0000_0000) by (nonlinear_arith)
            requires
                0 <= params <= 0x1_0000_0000_0000_0000,
                0 <= bpp <= 16,
        ;
        let weight: u128 = params * bpp as u128;
        if weight <= cur as u128 {
            cur = cur - weight as usize;
        } else {
            cur = 0;
        }
    }
    proof {
        let budget_ = budget as int;
        if best is Some {
            assert(picks@ == tr);
            assert(within_budget(ls, fs, budget_, tr));
            assert forall|other: Seq<usize>| #[trigger]
                within_budget(ls, fs, budget_, other) implies preferred(ls, fs, tr, other) by {
                let w = picked_bits(ls, fs, other);
                bits_nonneg(ls, fs, other);
                let tw = trace(ls, fs, choice@, count as int, w);
                assert(cell_ok(ls, fs, count as int, w, row@[w], tw));
                loss_is_missing_gain(ls, fs, tr);
                loss_is_missing_gain(ls, fs, other);
            }
        } else {
            assert forall|p: Seq<usize>| !within_budget(ls, fs, budget_, p) by {
                if within_budget(ls, fs, budget_, p) {
                    let w = picked_bits(ls, fs, p);
                    bits_nonneg(ls, fs, p);
                    let tw = trace(ls, fs, choice@, count as int, w);
                    assert(cell_ok(ls, fs, count as int, w, row@[w], tw));
                }
            }
            assert forall|i: int| 0 <= i < count implies if weightless(ls, i + 1) {
                first_best_format(ls[i], fs, #[trigger] picks@[i])
            } else {
                picks@[i] == 0
            } by {
                assert(zero_column_ok(ls, fs, choice@, i));
            }
            assert forall|i: int| 0 <= i < count implies #[trigger] picks@[i] < fs.len() by {
                assert(zero_column_ok(ls, fs, choice@, i));
            }
        }
    }
    picks
}

/// The best picks are one listed format for each layer, within the budget, and no others within it
/// lose less.
pub proof fn best_picks_lose_least(
    layers: Seq<LayerSensitivity>,
    formats: Seq<AllocFormat>,
    budget: int,
    picks: Seq<usize>,
    other: Seq<usize>,
)
    requires
        best_picks(layers, formats, budget, picks),
        other.len() == layers.len(),
        forall|i: int| 0 <= i < other.len() ==> #[trigger] other[i] < formats.len(),
        picked_bits(layers, formats, other) <= budget,
    ensures
        picks.len() == layers.len(),
        forall|i: int| 0 <= i < picks.len() ==> #[trigger] picks[i] < formats.len(),
        picked_bits(layers, formats, picks) <= budget,
        picked_loss(layers, formats, picks) <= picked_loss(layers, formats, other),
        picked_loss(layers, formats, picks) == picked_loss(layers, formats, other) ==> picked_bits(
            layers,
            formats,
            picks,
        ) >= picked_bits(layers, formats, other),
{
    assert(within_budget(layers, formats, budget, other));
}

/// Among picks of equal loss and bits the best ones take the earlier format for the last layer in
/// which they differ.
pub proof fn best_picks_break_ties_from_the_end(
    layers: Seq<LayerSensitivity>,
    formats: Seq<AllocFormat>,
    budget: int,
    picks: Seq<usize>,
    other: Seq<usize>,
    d: int,
)
    requires
        best_picks(layers, formats, budget, picks),
        other.len() == layers.len(),
        forall|i: int| 0 <= i < other.len() ==> #[trigger] other[i] < formats.len(),
        picked_bits(layers, formats, other) == picked_bits(layers, formats, picks),
        picked_loss(layers, formats, other) == picked_loss(layers, formats, picks),
        0 <= d < layers.len(),
        picks[d] != other[d],
        forall|i: int| d < i < layers.len() ==> #[trigger] picks[i] == other[i],
    ensures
        picks[d] < other[d],
{
    assert(within_budget(layers, formats, budget, other));
    last_difference_orders(picks, other, d);
}

proof fn last_difference_orders(a: Seq<usize>, b: Seq<usize>, d: int)
    requires
        a.len() == b.len(),
        0 <= d < a.len(),
        a[d] != b[d],
        forall|i: int| d < i < a.len() ==> #[trigger] a[i] == b[i],
        picks_no_later(a, b),
    ensures
        a[d] < b[d],
    decreases a.len(),
{
    if d < a.len() - 1 {
        assert(a[a.len() - 1] == b[b.len() - 1]);
        assert forall|i: int| d < i < a.drop_last().len() implies #[trigger] a.drop_last()[i]
            == b.drop_last()[i] by {
            assert(a[i] == b[i]);
        }
        last_difference_orders(a.drop_last(), b.drop_last(), d);
    }
}

/// Where nothing fits, a layer with parameters, and every layer after it, takes the first format.
/// A layer with only layers without parameters up to it takes the first of the formats under which
/// its score times bits per parameter is greatest.
pub proof fn fallback_takes_the_first_format(
    layers: Seq<LayerSensitivity>,
    formats: Seq<AllocFormat>,
    picks: Seq<usize>,
    i: int,
    g: int,
)
    requires
        fallback_picks(layers, formats, picks),
        0 <= i < layers.len(),
        0 <= g < formats.len(),
    ensures
        picks.len() == layers.len(),
        (exists|k: int| 0 <= k <= i && (#[trigger] layers[k]).n_params > 0) ==> picks[i] == 0,
        (forall|k: int| 0 <= k <= i ==> (#[trigger] layers[k]).n_params == 0) ==> {
            let here = layers[i].score * formats[picks[i] as int].bpp();
            let there = layers[i].score * formats[g].bpp();
            picks[i] < formats.len() && there <= here && (g < picks[i] ==> there < here)
        },
{
    assert(weightless(layers, i + 1) <==> forall|k: int|
        0 <= k <= i ==> (#[trigger] layers[k]).n_params == 0);
    assert(picks[i] == picks[i]);
    assert(formats[g] == formats[g]);
}

} // verus!
