//! Format assignments, and the allocators that make them.
use crate::bpp::{budget_is_the_limit, AchievedBpp, TargetBpp};
use crate::format::{bits_follow_precision, name_reads_back, AllocFormat};
use crate::greedy::{
    assigned_bits, assigned_bits_bound, greedy_assigns_listed_formats,
    greedy_fills_the_most_sensitive_first, greedy_formats, greedy_is_unique,
    greedy_spends_up_to_the_target, is_greedy,
};
use crate::knapsack::{
    best_picks, best_picks_break_ties_from_the_end, best_picks_lose_least, fallback_picks,
    fallback_takes_the_first_format, first_best_format, gains_fit, knapsack_picks, picked_bits,
    picked_loss, picks_no_later, preferred, valid_picks, weightless, within_budget,
};
use crate::names::{ascending, paired_at, NameMap};
use crate::promote::{
    promote_fused_siblings, promoted, promotion_takes_a_siblings_format,
    promotion_takes_the_highest_rank, siblings, siblings_share_a_format, texts,
};
use crate::sensitivity::{sum_params, total_params, total_params_grows, LayerSensitivity};
use crate::text::{precedes, precedes_irreflexive};
use vstd::prelude::*;

verus! {

/// Complete per-layer format assignment.
#[derive(Debug, Clone)]
pub struct PrismaAssignment {
    /// Format name of each module path.
    pub layers: NameMap<String>,
    /// Achieved bits per parameter.
    pub achieved_bpp: AchievedBpp,
    /// Target bits per parameter.
    pub target_bpp: TargetBpp,
    /// Parameter count of each layer, in the order the layers were given.
    pub per_layer_params: Vec<(String, usize)>,
}

/// The format name of each module path; of layers with one path the last counts.
pub open spec fn formats_by_name(
    layers: Seq<LayerSensitivity>,
    assigned: Seq<AllocFormat>,
) -> Map<Seq<char>, Seq<char>>
    decreases assigned.len(),
{
    if assigned.len() == 0 {
        Map::empty()
    } else {
        formats_by_name(layers, assigned.drop_last()).insert(
            layers[assigned.len() - 1].name@,
            assigned.last().label(),
        )
    }
}

/// Whether a list names the layers with their parameter counts, in order.
pub open spec fn lists_params(layers: Seq<LayerSensitivity>, list: Seq<(String, usize)>) -> bool {
    &&& list.len() == layers.len()
    &&& forall|i: int|
        0 <= i < list.len() ==> (#[trigger] list[i]).0@ == layers[i].name@ && list[i].1
            == layers[i].n_params
}

impl PrismaAssignment {
    /// The format name of each module path.
    pub open spec fn formats(self) -> Map<Seq<char>, Seq<char>> {
        texts(self.layers@)
    }

    /// Whether this is the assignment for no layers or no formats: nothing assigned, and sixteen
    /// bits per parameter.
    pub open spec fn is_vacant(self, target: TargetBpp) -> bool {
        &&& self.formats() == Map::<Seq<char>, Seq<char>>::empty()
        &&& self.achieved_bpp.bits == 16
        &&& self.achieved_bpp.params == 1
        &&& self.target_bpp == target
        &&& self.per_layer_params@.len() == 0
    }

    /// Whether this records one format per layer, with the bits that they take.
    pub open spec fn records(
        self,
        layers: Seq<LayerSensitivity>,
        assigned: Seq<AllocFormat>,
        target: TargetBpp,
    ) -> bool {
        &&& self.formats() == formats_by_name(layers, assigned)
        &&& self.achieved_bpp.bits == assigned_bits(layers, assigned)
        &&& self.achieved_bpp.params == total_params(layers)
        &&& self.target_bpp == target
        &&& lists_params(layers, self.per_layer_params@)
    }
}

/// The assignment for no layers or no formats.
fn vacant(target: &TargetBpp) -> (r: PrismaAssignment)
    ensures
        r.is_vacant(*target),
{
    let layers: NameMap<String> = NameMap::new();
    assert(texts(layers@) =~= Map::<Seq<char>, Seq<char>>::empty());
    PrismaAssignment {
        layers,
        achieved_bpp: AchievedBpp { bits: 16, params: 1 },
        target_bpp: *target,
        per_layer_params: Vec::new(),
    }
}

/// Records one format per layer.
fn record(
    layers: &[LayerSensitivity],
    assigned: &Vec<AllocFormat>,
    bits: u128,
    target: &TargetBpp,
) -> (r: PrismaAssignment)
    requires
        assigned@.len() == layers@.len(),
        bits == assigned_bits(layers@, assigned@),
        total_params(layers@) <= usize::MAX,
    ensures
        r.records(layers@, assigned@, *target),
{
    let mut by_name: NameMap<String> = NameMap::new();
    let mut params: Vec<(String, usize)> = Vec::new();
    assert(texts(by_name@) =~= formats_by_name(layers@, assigned@.take(0)));
    for i in 0..layers.len()
        invariant
            assigned@.len() == layers@.len(),
            texts(by_name@) == formats_by_name(layers@, assigned@.take(i as int)),
            params@.len() == i,
            forall|k: int|
                0 <= k < i ==> (#[trigger] params@[k]).0@ == layers@[k].name@ && params@[k].1
                    == layers@[k].n_params,
    {
        let ghost before = by_name@;
        by_name.insert(layers[i].name.clone(), assigned[i].name());
        params.push((layers[i].name.clone(), layers[i].n_params));
        assert(assigned@.take(i + 1).drop_last() == assigned@.take(i as int));
        assert(texts(by_name@) =~= texts(before).insert(
            layers@[i as int].name@,
            assigned@[i as int].label(),
        ));
    }
    assert(assigned@.take(assigned@.len() as int) == assigned@);
    PrismaAssignment {
        layers: by_name,
        achieved_bpp: AchievedBpp { bits, params: sum_params(layers) },
        target_bpp: *target,
        per_layer_params: params,
    }
}

/// Greedy format allocator.
///
/// Starts all layers at the cheapest format and upgrades the most sensitive layers until the
/// target is met.
pub fn allocate_greedy(
    sensitivities: &[LayerSensitivity],
    target_bpp: &TargetBpp,
    formats: &[AllocFormat],
) -> (r: PrismaAssignment)
    requires
        target_bpp.wf(),
        formats@.len() > 0 ==> total_params(sensitivities@) <= usize::MAX,
    ensures
        sensitivities@.len() == 0 || formats@.len() == 0 ==> r.is_vacant(*target_bpp),
        sensitivities@.len() > 0 && formats@.len() > 0 ==> exists|assigned: Seq<AllocFormat>|
            #[trigger] is_greedy(sensitivities@, formats@, *target_bpp, assigned) && r.records(
                sensitivities@,
                assigned,
                *target_bpp,
            ),
        allocates_greedily(sensitivities@, formats@, *target_bpp, r),
{
    if sensitivities.len() == 0 || formats.len() == 0 {
        return vacant(target_bpp);
    }
    let (assigned, bits) = greedy_formats(sensitivities, target_bpp, formats);
    record(sensitivities, &assigned, bits, target_bpp)
}

/// The formats that picks stand for.
pub open spec fn picked_formats(formats: Seq<AllocFormat>, picks: Seq<usize>) -> Seq<AllocFormat> {
    picks.map_values(|p: usize| formats[p as int])
}

/// The bits of picks are the bits of the formats they stand for.
pub proof fn picks_take_the_same_bits(
    layers: Seq<LayerSensitivity>,
    formats: Seq<AllocFormat>,
    picks: Seq<usize>,
)
    ensures
        picked_bits(layers, formats, picks) == assigned_bits(
            layers,
            picked_formats(formats, picks),
        ),
    decreases picks.len(),
{
    if picks.len() > 0 {
        picks_take_the_same_bits(layers, formats, picks.drop_last());
        assert(picked_formats(formats, picks).drop_last() =~= picked_formats(
            formats,
            picks.drop_last(),
        ));
    }
}

/// Knapsack format allocator.
///
/// Finds the assignment of lowest loss within the target, where the loss of a layer is its score
/// times the bits per parameter saved against BF16.
pub fn allocate_knapsack(
    sensitivities: &[LayerSensitivity],
    target_bpp: &TargetBpp,
    formats: &[AllocFormat],
) -> (r: PrismaAssignment)
    requires
        target_bpp.wf(),
        formats@.len() > 0 ==> total_params(sensitivities@) <= usize::MAX,
        formats@.len() > 0 ==> gains_fit(sensitivities@.len() as int),
        formats@.len() > 0 ==> target_bpp.budget(total_params(sensitivities@) as int) < usize::MAX,
    ensures
        sensitivities@.len() == 0 || formats@.len() == 0 ==> r.is_vacant(*target_bpp),
        sensitivities@.len() > 0 && formats@.len() > 0 ==> exists|picks: Seq<usize>| #[trigger]
            knapsack_chose(sensitivities@, formats@, *target_bpp, picks) && r.records(
                sensitivities@,
                picked_formats(formats@, picks),
                *target_bpp,
            ),
        allocates_by_knapsack(sensitivities@, formats@, *target_bpp, r),
{
    if sensitivities.len() == 0 || formats.len() == 0 {
        return vacant(target_bpp);
    }
    let params: usize = sum_params(sensitivities);
    let budget: u128 = target_bpp.bit_budget(params);
    let picks: Vec<usize> = knapsack_picks(sensitivities, formats, budget as usize);
    let ghost chosen = picks@;
    let mut assigned: Vec<AllocFormat> = Vec::new();
    let mut bits: u128 = 0;
    assert(chosen.take(0) =~= Seq::<usize>::empty());
    for i in 0..sensitivities.len()
        invariant
            picks@ == chosen,
            valid_picks(sensitivities@.len() as int, formats@, chosen),
            total_params(sensitivities@) <= usize::MAX,
            assigned@ == picked_formats(formats@, chosen.take(i as int)),
            bits == assigned_bits(sensitivities@, assigned@),
    {
        assert(chosen[i as int] < formats@.len());
        let fmt: AllocFormat = formats[picks[i]];
        let ghost before = assigned@;
        assigned.push(fmt);
        assert(chosen.take(i + 1) == chosen.take(i as int).push(chosen[i as int]));
        assert(assigned@ =~= picked_formats(formats@, chosen.take(i + 1)));
        assert(assigned@.drop_last() == before);
        let share: u128 = sensitivities[i].n_params as u128;
        let bpp: u64 = fmt.effective_bpp();
        proof {
            assigned_bits_bound(sensitivities@, assigned@);
            total_params_grows(sensitivities@, i + 1);
            assigned_bits_bound(sensitivities@, before);
            assert(0 <= share * bpp <= 0x10_0000_0000_0000_0000) by (nonlinear_arith)
                requires
                    0 <= share <= 0x1_0000_0000_0000_0000,
                    0 <= bpp <= 16,
            ;
        }
        bits = bits + share * bpp as u128;
    }
    assert(chosen.take(chosen.len() as int) == chosen);
    assert(knapsack_chose(sensitivities@, formats@, *target_bpp, chosen));
    record(sensitivities, &assigned, bits, target_bpp)
}

/// Whether picks are those of the knapsack solver: the best within the budget, or the fallback
/// where nothing is within it.
pub open spec fn knapsack_chose(
    layers: Seq<LayerSensitivity>,
    formats: Seq<AllocFormat>,
    target: TargetBpp,
    picks: Seq<usize>,
) -> bool {
    let budget = target.budget(total_params(layers) as int);
    if exists|p: Seq<usize>| within_budget(layers, formats, budget, p) {
        best_picks(layers, formats, budget, picks)
    } else {
        fallback_picks(layers, formats, picks)
    }
}

/// Another name for [`allocate_greedy`].
pub fn allocate_formats(
    sensitivities: &[LayerSensitivity],
    target_bpp: &TargetBpp,
    formats: &[AllocFormat],
) -> (r: PrismaAssignment)
    requires
        target_bpp.wf(),
        formats@.len() > 0 ==> total_params(sensitivities@) <= usize::MAX,
    ensures
        sensitivities@.len() == 0 || formats@.len() == 0 ==> r.is_vacant(*target_bpp),
        sensitivities@.len() > 0 && formats@.len() > 0 ==> exists|assigned: Seq<AllocFormat>|
            #[trigger] is_greedy(sensitivities@, formats@, *target_bpp, assigned) && r.records(
                sensitivities@,
                assigned,
                *target_bpp,
            ),
        allocates_greedily(sensitivities@, formats@, *target_bpp, r),
{
    allocate_greedy(sensitivities, target_bpp, formats)
}

/// Rank by precision of every listed format's name.
pub open spec fn precision_ranks(formats: Seq<AllocFormat>) -> Map<Seq<char>, usize>
    decreases formats.len(),
{
    if formats.len() == 0 {
        Map::empty()
    } else {
        precision_ranks(formats.drop_last()).insert(
            formats.last().label(),
            formats.last().precision() as usize,
        )
    }
}

/// Ranks the listed formats by precision.
fn rank_formats(formats: &[AllocFormat]) -> (r: NameMap<usize>)
    ensures
        r@ == precision_ranks(formats@),
{
    let mut out: NameMap<usize> = NameMap::new();
    assert(formats@.take(0) =~= Seq::<AllocFormat>::empty());
    for i in 0..formats.len()
        invariant
            out@ == precision_ranks(formats@.take(i as int)),
    {
        assert(formats@.take(i + 1).drop_last() == formats@.take(i as int));
        out.insert(formats[i].name(), formats[i].rank());
    }
    assert(formats@.take(formats@.len() as int) == formats@);
    out
}

/// Parameter count of the first layer of a name.
pub open spec fn params_of(layers: Seq<LayerSensitivity>, name: Seq<char>) -> Option<usize>
    decreases layers.len(),
{
    if layers.len() == 0 {
        None
    } else {
        match params_of(layers.drop_last(), name) {
            Some(n) => Some(n),
            None => if layers.last().name@ == name {
                Some(layers.last().n_params)
            } else {
                None
            },
        }
    }
}

/// Bits that a named layer takes under a format name; a name that is no format counts as NVFP4.
pub open spec fn named_bits(
    layers: Seq<LayerSensitivity>,
    name: Seq<char>,
    format: Seq<char>,
) -> int {
    let params = match params_of(layers, name) {
        Some(n) => n,
        None => 0,
    };
    let fmt = match AllocFormat::named(format) {
        Some(f) => f,
        None => AllocFormat::Nvfp4,
    };
    params * fmt.bpp()
}

/// Bits that the named layers take together.
pub open spec fn all_named_bits(
    layers: Seq<LayerSensitivity>,
    names: Seq<Seq<char>>,
    formats: Map<Seq<char>, Seq<char>>,
) -> int
    decreases names.len(),
{
    if names.len() == 0 {
        0
    } else {
        all_named_bits(layers, names.drop_last(), formats) + named_bits(
            layers,
            names.last(),
            formats[names.last()],
        )
    }
}

/// Parameters of the named layers together.
spec fn all_params_of(layers: Seq<LayerSensitivity>, names: Seq<Seq<char>>) -> int
    decreases names.len(),
{
    if names.len() == 0 {
        0
    } else {
        all_params_of(layers, names.drop_last()) + match params_of(layers, names.last()) {
            Some(n) => n as int,
            None => 0,
        }
    }
}

proof fn params_without(layers: Seq<LayerSensitivity>, names: Seq<Seq<char>>)
    requires
        layers.len() > 0,
        !names.contains(layers.last().name@),
    ensures
        all_params_of(layers, names) == all_params_of(layers.drop_last(), names),
    decreases names.len(),
{
    if names.len() > 0 {
        assert(names[names.len() - 1] == names.last());
        assert forall|x: Seq<char>| names.drop_last().contains(x) implies names.contains(x) by {
            let i = names.drop_last().index_of(x);
            assert(names[i] == x);
        }
        params_without(layers, names.drop_last());
    }
}

proof fn params_with_one_more(layers: Seq<LayerSensitivity>, names: Seq<Seq<char>>)
    requires
        layers.len() > 0,
        names.no_duplicates(),
    ensures
        all_params_of(layers, names) <= all_params_of(layers.drop_last(), names)
            + layers.last().n_params,
    decreases names.len(),
{
    if names.len() > 0 {
        let rest = names.drop_last();
        if names.last() == layers.last().name@ {
            assert(!rest.contains(names.last())) by {
                if rest.contains(names.last()) {
                    let i = rest.index_of(names.last());
                    assert(names[i] == names[names.len() - 1]);
                }
            }
            params_without(layers, rest);
        } else {
            params_with_one_more(layers, rest);
        }
    }
}

/// Distinct names cannot hold more parameters than there are.
proof fn params_of_names_bound(layers: Seq<LayerSensitivity>, names: Seq<Seq<char>>)
    requires
        names.no_duplicates(),
    ensures
        0 <= all_params_of(layers, names) <= total_params(layers),
    decreases layers.len(),
{
    if layers.len() == 0 {
        no_params_without_layers(layers, names);
    } else {
        params_of_names_bound(layers.drop_last(), names);
        params_with_one_more(layers, names);
        params_nonneg(layers, names);
    }
}

proof fn no_params_without_layers(layers: Seq<LayerSensitivity>, names: Seq<Seq<char>>)
    requires
        layers.len() == 0,
    ensures
        all_params_of(layers, names) == 0,
    decreases names.len(),
{
    if names.len() > 0 {
        no_params_without_layers(layers, names.drop_last());
    }
}

proof fn params_nonneg(layers: Seq<LayerSensitivity>, names: Seq<Seq<char>>)
    ensures
        all_params_of(layers, names) >= 0,
    decreases names.len(),
{
    if names.len() > 0 {
        params_nonneg(layers, names.drop_last());
    }
}

proof fn named_bits_bound(
    layers: Seq<LayerSensitivity>,
    names: Seq<Seq<char>>,
    formats: Map<Seq<char>, Seq<char>>,
)
    ensures
        0 <= all_named_bits(layers, names, formats) <= 16 * all_params_of(layers, names),
    decreases names.len(),
{
    if names.len() > 0 {
        named_bits_bound(layers, names.drop_last(), formats);
        let p = match params_of(layers, names.last()) {
            Some(n) => n as int,
            None => 0,
        };
        let fmt = match AllocFormat::named(formats[names.last()]) {
            Some(f) => f,
            None => AllocFormat::Nvfp4,
        };
        let b = fmt.bpp() as int;
        assert(0 <= p * b <= 16 * p) by (nonlinear_arith)
            requires
                p >= 0,
                0 <= b <= 16,
        ;
    }
}

proof fn ascending_is_distinct(names: Seq<Seq<char>>, n: int)
    requires
        ascending(names),
        0 <= n <= names.len(),
    ensures
        names.take(n).no_duplicates(),
{
    assert forall|i: int, j: int| 0 <= i < n && 0 <= j < n && i != j implies names.take(n)[i]
        != names.take(n)[j] by {
        precedes_irreflexive(names[i]);
        if i < j {
            assert(precedes(names[i], names[j]));
        } else {
            assert(precedes(names[j], names[i]));
        }
    }
}

/// The count found in the first layers is the count found in all.
proof fn params_found_early(layers: Seq<LayerSensitivity>, name: Seq<char>, n: int)
    requires
        0 <= n <= layers.len(),
        params_of(layers.take(n), name) is Some,
    ensures
        params_of(layers, name) == params_of(layers.take(n), name),
    decreases layers.len() - n,
{
    if n < layers.len() {
        assert(layers.take(n + 1).drop_last() == layers.take(n));
        params_found_early(layers, name, n + 1);
    } else {
        assert(layers.take(n) == layers);
    }
}

/// Looks up the parameter count of a named layer.
fn find_params(Ghost(layers): Ghost<Seq<LayerSensitivity>>, list: &Vec<(String, usize)>, name: &String) -> (r:
    usize)
    requires
        lists_params(layers, list@),
    ensures
        r == (match params_of(layers, name@) {
            Some(n) => n,
            None => 0,
        }),
{
    assert(layers.take(0) =~= Seq::<LayerSensitivity>::empty());
    for i in 0..list.len()
        invariant
            lists_params(layers, list@),
            params_of(layers.take(i as int), name@) is None,
    {
        assert(layers.take(i + 1).drop_last() == layers.take(i as int));
        assert(layers.take(i + 1).last() == layers[i as int]);
        if list[i].0 == *name {
            proof {
                params_found_early(layers, name@, i + 1);
            }
            return list[i].1;
        }
    }
    assert(layers.take(layers.len() as int) == layers);
    0
}

/// Whether an assignment is the promoted greedy one.
pub open spec fn promotes_greedy(
    layers: Seq<LayerSensitivity>,
    formats: Seq<AllocFormat>,
    target: TargetBpp,
    assigned: Seq<AllocFormat>,
    r: PrismaAssignment,
) -> bool {
    &&& is_greedy(layers, formats, target, assigned)
    &&& promoted(formats_by_name(layers, assigned), precision_ranks(formats), r.formats())
    &&& lists_params(layers, r.per_layer_params@)
    &&& ascending(r.layers.names())
    &&& r.achieved_bpp.bits == all_named_bits(layers, r.layers.names(), r.formats())
    &&& r.achieved_bpp.params == if total_params(layers) == 0 {
        1
    } else {
        total_params(layers)
    }
}

/// Greedy allocation with fused siblings promoted to one format.
///
/// The achieved bits per parameter are those after promotion. Without layers or formats nothing
/// is assigned, and they are zero.
pub fn allocate_with_promotion(
    sensitivities: &[LayerSensitivity],
    target_bpp: &TargetBpp,
    formats: &[AllocFormat],
) -> (r: PrismaAssignment)
    requires
        target_bpp.wf(),
        formats@.len() > 0 ==> total_params(sensitivities@) <= usize::MAX,
    ensures
        r.target_bpp == *target_bpp,
        sensitivities@.len() == 0 || formats@.len() == 0 ==> {
            &&& r.formats() == Map::<Seq<char>, Seq<char>>::empty()
            &&& r.per_layer_params@.len() == 0
            &&& r.achieved_bpp.bits == 0
            &&& r.achieved_bpp.params == 1
        },
        sensitivities@.len() == 0 || formats@.len() == 0 ==> promotes_nothing(r),
        sensitivities@.len() > 0 && formats@.len() > 0 ==> exists|assigned: Seq<AllocFormat>|
            #[trigger] promotes_greedy(sensitivities@, formats@, *target_bpp, assigned, r),
{
    let plain = allocate_greedy(sensitivities, target_bpp, formats);
    if sensitivities.len() == 0 || formats.len() == 0 {
        return PrismaAssignment {
            layers: plain.layers,
            achieved_bpp: AchievedBpp { bits: 0, params: 1 },
            target_bpp: plain.target_bpp,
            per_layer_params: plain.per_layer_params,
        };
    }
    let ghost ls = sensitivities@;
    let ranks: NameMap<usize> = rank_formats(formats);
    let layers: NameMap<String> = promote_fused_siblings(&plain.layers, &ranks);
    let ghost names = layers.names();
    let ghost fmts = texts(layers@);
    let n: usize = layers.len();
    let mut bits: u128 = 0;
    assert(names.take(0) =~= Seq::<Seq<char>>::empty());
    for i in 0..n
        invariant
            n == names.len(),
            names == layers.names(),
            fmts == texts(layers@),
            ascending(names),
            total_params(ls) <= usize::MAX,
            lists_params(ls, plain.per_layer_params@),
            bits == all_named_bits(ls, names.take(i as int), fmts),
    {
        let params: usize = find_params(Ghost(ls), &plain.per_layer_params, layers.name_at(i));
        let fmt: AllocFormat = match AllocFormat::parse_from_str(layers.value_at(i).as_str()) {
            Some(f) => f,
            None => AllocFormat::Nvfp4,
        };
        let share: u128 = params as u128;
        let bpp: u64 = fmt.effective_bpp();
        proof {
            paired_at(names, layers.values(), i as int);
            assert(names.take(i + 1).drop_last() == names.take(i as int));
            assert(names.take(i + 1).last() == names[i as int]);
            ascending_is_distinct(names, i + 1);
            params_of_names_bound(ls, names.take(i + 1));
            named_bits_bound(ls, names.take(i + 1), fmts);
            ascending_is_distinct(names, i as int);
            params_of_names_bound(ls, names.take(i as int));
            named_bits_bound(ls, names.take(i as int), fmts);
            assert(0 <= share * bpp <= 0x10_0000_0000_0000_0000) by (nonlinear_arith)
                requires
                    0 <= share <= 0x1_0000_0000_0000_0000,
                    0 <= bpp <= 16,
            ;
        }
        bits = bits + share * bpp as u128;
    }
    assert(names.take(n as int) == names);
    let total: usize = plain.achieved_bpp.params;
    let r = PrismaAssignment {
        layers,
        achieved_bpp: AchievedBpp {
            bits,
            params: if total == 0 {
                1
            } else {
                total
            },
        },
        target_bpp: plain.target_bpp,
        per_layer_params: plain.per_layer_params,
    };
    proof {
        let assigned = choose|assigned: Seq<AllocFormat>| #[trigger]
            is_greedy(ls, formats@, *target_bpp, assigned) && plain.records(
                ls,
                assigned,
                *target_bpp,
            );
        assert(promotes_greedy(ls, formats@, *target_bpp, assigned, r));
    }
    r
}

/// An assignment as it is written out.
#[derive(Debug)]
pub struct ExportPayload {
    pub layers: NameMap<String>,
    pub achieved_bpp: AchievedBpp,
    pub target_bpp: TargetBpp,
    pub total_params: usize,
    pub num_layers: usize,
    pub layer_params: Vec<(String, usize)>,
}

/// Parameters of a list together.
pub open spec fn listed_total(list: Seq<(String, usize)>) -> nat
    decreases list.len(),
{
    if list.len() == 0 {
        0
    } else {
        listed_total(list.drop_last()) + list.last().1 as nat
    }
}

proof fn listed_total_grows(list: Seq<(String, usize)>, n: int)
    requires
        0 <= n <= list.len(),
    ensures
        listed_total(list.take(n)) <= listed_total(list),
    decreases list.len() - n,
{
    if n < list.len() {
        listed_total_grows(list, n + 1);
        assert(list.take(n + 1).drop_last() == list.take(n));
    } else {
        assert(list.take(n) == list);
    }
}

/// The payload to write out for an assignment.
pub fn export_payload(assignment: &PrismaAssignment) -> (r: ExportPayload)
    requires
        listed_total(assignment.per_layer_params@) <= usize::MAX,
    ensures
        r.layers@ == assignment.layers@,
        r.achieved_bpp == assignment.achieved_bpp,
        r.target_bpp == assignment.target_bpp,
        r.total_params == listed_total(assignment.per_layer_params@),
        r.num_layers == assignment.layers.names().len(),
        r.layer_params@.len() == assignment.per_layer_params@.len(),
        forall|i: int|
            0 <= i < r.layer_params@.len() ==> (#[trigger] r.layer_params@[i]).0@
                == assignment.per_layer_params@[i].0@ && r.layer_params@[i].1
                == assignment.per_layer_params@[i].1,
        exports(*assignment, r),
{
    let list = &assignment.per_layer_params;
    let mut total: usize = 0;
    let mut layer_params: Vec<(String, usize)> = Vec::new();
    for i in 0..list.len()
        invariant
            listed_total(list@) <= usize::MAX,
            total == listed_total(list@.take(i as int)),
            layer_params@.len() == i,
            forall|k: int|
                0 <= k < i ==> (#[trigger] layer_params@[k]).0@ == list@[k].0@ && layer_params@[k].1
                    == list@[k].1,
    {
        proof {
            listed_total_grows(list@, i + 1);
            assert(list@.take(i + 1).drop_last() == list@.take(i as int));
        }
        total = total + list[i].1;
        layer_params.push((list[i].0.clone(), list[i].1));
    }
    assert(list@.take(list@.len() as int) == list@);
    ExportPayload {
        layers: assignment.layers.clone(),
        achieved_bpp: assignment.achieved_bpp,
        target_bpp: assignment.target_bpp,
        total_params: total,
        num_layers: assignment.layers.len(),
        layer_params,
    }
}

/// Loss of an assignment: score times the bits per parameter saved against BF16.
pub open spec fn assigned_loss(
    layers: Seq<LayerSensitivity>,
    assigned: Seq<AllocFormat>,
) -> int
    decreases assigned.len(),
{
    if assigned.len() == 0 {
        0
    } else {
        assigned_loss(layers, assigned.drop_last()) + layers[assigned.len() - 1].score * (
        AllocFormat::Bf16.bpp() - assigned.last().bpp())
    }
}

/// The loss of picks is the loss of the formats they stand for.
pub proof fn picks_have_the_same_loss(
    layers: Seq<LayerSensitivity>,
    formats: Seq<AllocFormat>,
    picks: Seq<usize>,
)
    ensures
        picked_loss(layers, formats, picks) == assigned_loss(
            layers,
            picked_formats(formats, picks),
        ),
    decreases picks.len(),
{
    if picks.len() > 0 {
        picks_have_the_same_loss(layers, formats, picks.drop_last());
        assert(picked_formats(formats, picks).drop_last() =~= picked_formats(
            formats,
            picks.drop_last(),
        ));
    }
}

/// Where any assignment of listed formats is within the target, the knapsack assignment is too,
/// and it loses no more than that one.
pub proof fn knapsack_is_optimal(
    layers: Seq<LayerSensitivity>,
    formats: Seq<AllocFormat>,
    target: TargetBpp,
    picks: Seq<usize>,
    other: Seq<AllocFormat>,
)
    requires
        target.wf(),
        formats.len() <= usize::MAX,
        knapsack_chose(layers, formats, target, picks),
        other.len() == layers.len(),
        forall|i: int| 0 <= i < other.len() ==> formats.contains(#[trigger] other[i]),
        assigned_bits(layers, other) * target.params <= total_params(layers) * target.bits,
    ensures
        assigned_bits(layers, picked_formats(formats, picks)) * target.params <= total_params(
            layers,
        ) * target.bits,
        assigned_loss(layers, picked_formats(formats, picks)) <= assigned_loss(layers, other),
{
    let n = total_params(layers) as int;
    let budget = target.budget(n);
    let p = other.map_values(|f: AllocFormat| formats.index_of(f) as usize);
    assert forall|i: int| 0 <= i < p.len() implies #[trigger] p[i] < formats.len()
        && formats[p[i] as int] == other[i] by {
        assert(formats.contains(other[i]));
    }
    assert(picked_formats(formats, p) =~= other);
    picks_take_the_same_bits(layers, formats, p);
    picks_have_the_same_loss(layers, formats, p);
    picks_take_the_same_bits(layers, formats, picks);
    picks_have_the_same_loss(layers, formats, picks);
    budget_is_the_limit(target, n, assigned_bits(layers, other));
    assert(within_budget(layers, formats, budget, p));
    budget_is_the_limit(target, n, picked_bits(layers, formats, picks));
}

/// The knapsack assignment loses no more than the greedy one, where that is within the target.
pub proof fn knapsack_is_no_worse_than_greedy(
    layers: Seq<LayerSensitivity>,
    formats: Seq<AllocFormat>,
    target: TargetBpp,
    picks: Seq<usize>,
    assigned: Seq<AllocFormat>,
)
    requires
        target.wf(),
        0 < formats.len() <= usize::MAX,
        knapsack_chose(layers, formats, target, picks),
        is_greedy(layers, formats, target, assigned),
        assigned_bits(layers, assigned) * target.params <= total_params(layers) * target.bits,
    ensures
        assigned_loss(layers, picked_formats(formats, picks)) <= assigned_loss(layers, assigned),
{
    assert forall|i: int| 0 <= i < assigned.len() implies formats.contains(
        #[trigger] assigned[i],
    ) by {
        greedy_assigns_listed_formats(layers, formats, target, assigned, i);
    }
    knapsack_is_optimal(layers, formats, target, picks, assigned);
}

/// The knapsack solver has one answer only.
pub proof fn knapsack_choice_is_unique(
    layers: Seq<LayerSensitivity>,
    formats: Seq<AllocFormat>,
    target: TargetBpp,
    a: Seq<usize>,
    b: Seq<usize>,
)
    requires
        knapsack_chose(layers, formats, target, a),
        knapsack_chose(layers, formats, target, b),
    ensures
        a == b,
{
    let budget = target.budget(total_params(layers) as int);
    if exists|p: Seq<usize>| within_budget(layers, formats, budget, p) {
        assert(within_budget(layers, formats, budget, a));
        assert(within_budget(layers, formats, budget, b));
        assert(preferred(layers, formats, a, b) && preferred(layers, formats, b, a));
        one_order(a, b);
    } else {
        assert forall|i: int| 0 <= i < a.len() implies a[i] == b[i] by {
            if weightless(layers, i + 1) {
                assert(first_best_format(layers[i], formats, a[i]));
                assert(first_best_format(layers[i], formats, b[i]));
                assert(formats[a[i] as int] == formats[a[i] as int]);
                assert(formats[b[i] as int] == formats[b[i] as int]);
            }
        }
        assert(a =~= b);
    }
}

proof fn one_order(a: Seq<usize>, b: Seq<usize>)
    requires
        a.len() == b.len(),
        picks_no_later(a, b),
        picks_no_later(b, a),
    ensures
        a == b,
    decreases a.len(),
{
    if a.len() > 0 {
        one_order(a.drop_last(), b.drop_last());
        assert(a =~= a.drop_last().push(a.last()));
        assert(b =~= b.drop_last().push(b.last()));
    } else {
        assert(a =~= b);
    }
}

/// The rank of a listed format's name is its precision.
proof fn listed_rank(formats: Seq<AllocFormat>, f: AllocFormat)
    requires
        formats.contains(f),
    ensures
        precision_ranks(formats).contains_key(f.label()),
        precision_ranks(formats)[f.label()] == f.precision(),
    decreases formats.len(),
{
    let last = formats.last();
    name_reads_back(f);
    name_reads_back(last);
    if f != last {
        let i = formats.index_of(f);
        assert(formats.drop_last()[i] == f);
        listed_rank(formats.drop_last(), f);
    }
}

/// Every named format is the label of an assigned one.
proof fn named_format_is_assigned(
    layers: Seq<LayerSensitivity>,
    assigned: Seq<AllocFormat>,
    name: Seq<char>,
)
    requires
        formats_by_name(layers, assigned).contains_key(name),
    ensures
        exists|i: int|
            0 <= i < assigned.len() && formats_by_name(layers, assigned)[name]
                == (#[trigger] assigned[i]).label(),
    decreases assigned.len(),
{
    if assigned.len() > 0 {
        if layers[assigned.len() - 1].name@ == name {
            assert(assigned[assigned.len() - 1] == assigned.last());
        } else {
            let rest = assigned.drop_last();
            named_format_is_assigned(layers, rest, name);
            let i = choose|i: int|
                0 <= i < rest.len() && formats_by_name(layers, rest)[name] == (
                #[trigger] rest[i]).label();
            assert(assigned[i] == rest[i]);
        }
    }
}

/// Promotion leaves every layer in a listed format that takes at least the bits per parameter of
/// the greedy one.
pub proof fn promotion_keeps_precision(
    layers: Seq<LayerSensitivity>,
    formats: Seq<AllocFormat>,
    target: TargetBpp,
    assigned: Seq<AllocFormat>,
    r: PrismaAssignment,
    name: Seq<char>,
)
    requires
        formats.len() > 0,
        promotes_greedy(layers, formats, target, assigned, r),
        formats_by_name(layers, assigned).contains_key(name),
    ensures
        r.formats().contains_key(name),
        AllocFormat::named(formats_by_name(layers, assigned)[name]) matches Some(before)
            && AllocFormat::named(r.formats()[name]) matches Some(after) && formats.contains(after)
            && before.bpp() <= after.bpp(),
{
    let plain = formats_by_name(layers, assigned);
    let ranks = precision_ranks(formats);
    promotion_takes_the_highest_rank(plain, ranks, r.formats(), name, name);
    promotion_takes_a_siblings_format(plain, ranks, r.formats(), name);
    let lead = choose|b: Seq<char>| #[trigger]
        plain.contains_key(b) && siblings(name, b) && r.formats()[name] == plain[b];
    named_format_is_assigned(layers, assigned, name);
    named_format_is_assigned(layers, assigned, lead);
    let i = choose|i: int|
        0 <= i < assigned.len() && plain[name] == (#[trigger] assigned[i]).label();
    let j = choose|j: int|
        0 <= j < assigned.len() && plain[lead] == (#[trigger] assigned[j]).label();
    greedy_assigns_listed_formats(layers, formats, target, assigned, i);
    greedy_assigns_listed_formats(layers, formats, target, assigned, j);
    listed_rank(formats, assigned[i]);
    listed_rank(formats, assigned[j]);
    name_reads_back(assigned[i]);
    name_reads_back(assigned[j]);
    bits_follow_precision(assigned[i], assigned[j]);
    bits_follow_precision(assigned[j], assigned[i]);
}

/// Promotion never lowers the bits that the named layers take together.
pub proof fn promotion_adds_bits(
    layers: Seq<LayerSensitivity>,
    formats: Seq<AllocFormat>,
    target: TargetBpp,
    assigned: Seq<AllocFormat>,
    r: PrismaAssignment,
    names: Seq<Seq<char>>,
)
    requires
        formats.len() > 0,
        promotes_greedy(layers, formats, target, assigned, r),
        forall|i: int|
            0 <= i < names.len() ==> formats_by_name(layers, assigned).contains_key(
                #[trigger] names[i],
            ),
    ensures
        all_named_bits(layers, names, formats_by_name(layers, assigned)) <= all_named_bits(
            layers,
            names,
            r.formats(),
        ),
    decreases names.len(),
{
    if names.len() > 0 {
        let name = names.last();
        assert(name == names[names.len() - 1]);
        assert forall|i: int| 0 <= i < names.drop_last().len() implies formats_by_name(
            layers,
            assigned,
        ).contains_key(#[trigger] names.drop_last()[i]) by {
            assert(names.drop_last()[i] == names[i]);
        }
        promotion_adds_bits(layers, formats, target, assigned, r, names.drop_last());
        promotion_keeps_precision(layers, formats, target, assigned, r, name);
        let p = match params_of(layers, name) {
            Some(n) => n as int,
            None => 0,
        };
        let a = AllocFormat::named(formats_by_name(layers, assigned)[name])->0.bpp() as int;
        let b = AllocFormat::named(r.formats()[name])->0.bpp() as int;
        assert(p * a <= p * b) by (nonlinear_arith)
            requires
                p >= 0,
                a <= b,
        ;
    }
}

/// Whether no two layers have one name.
pub open spec fn distinct_names(layers: Seq<LayerSensitivity>) -> bool {
    forall|i: int, j: int|
        0 <= i < j < layers.len() ==> (#[trigger] layers[i]).name@ != (#[trigger] layers[j]).name@
}

/// The names of the layers, in order.
spec fn layer_names(layers: Seq<LayerSensitivity>) -> Seq<Seq<char>> {
    layers.map_values(|l: LayerSensitivity| l.name@)
}

/// The format that each layer is in under a map of format names, in order.
pub open spec fn formats_in(
    layers: Seq<LayerSensitivity>,
    formats: Map<Seq<char>, Seq<char>>,
) -> Seq<AllocFormat> {
    Seq::new(layers.len(), |i: int| AllocFormat::named(formats[layers[i].name@])->0)
}

/// A layer of a name of its own is found under it.
proof fn params_of_own_name(layers: Seq<LayerSensitivity>, i: int)
    requires
        distinct_names(layers),
        0 <= i < layers.len(),
    ensures
        params_of(layers, layers[i].name@) == Some(layers[i].n_params),
    decreases layers.len(),
{
    let rest = layers.drop_last();
    if i < rest.len() {
        assert(rest[i] == layers[i]);
        params_of_own_name(rest, i);
    } else {
        no_params_of_other_names(rest, layers[i].name@);
    }
}

proof fn no_params_of_other_names(layers: Seq<LayerSensitivity>, name: Seq<char>)
    requires
        forall|i: int| 0 <= i < layers.len() ==> (#[trigger] layers[i]).name@ != name,
    ensures
        params_of(layers, name) is None,
    decreases layers.len(),
{
    if layers.len() > 0 {
        assert(layers[layers.len() - 1] == layers.last());
        assert forall|i: int| 0 <= i < layers.drop_last().len() implies (
        #[trigger] layers.drop_last()[i]).name@ != name by {
            assert(layers.drop_last()[i] == layers[i]);
        }
        no_params_of_other_names(layers.drop_last(), name);
    }
}

/// A layer of a name of its own keeps the format it was assigned.
proof fn format_of_own_name(layers: Seq<LayerSensitivity>, assigned: Seq<AllocFormat>, i: int)
    requires
        distinct_names(layers),
        0 <= i < assigned.len() <= layers.len(),
    ensures
        formats_by_name(layers, assigned).contains_key(layers[i].name@),
        formats_by_name(layers, assigned)[layers[i].name@] == assigned[i].label(),
    decreases assigned.len(),
{
    let rest = assigned.drop_last();
    if i < rest.len() {
        assert(rest[i] == assigned[i]);
        assert(layers[i].name@ != layers[rest.len() as int].name@);
        format_of_own_name(layers, rest, i);
    }
}

/// Taking one name out of a list takes out its bits.
proof fn bits_without(
    layers: Seq<LayerSensitivity>,
    names: Seq<Seq<char>>,
    formats: Map<Seq<char>, Seq<char>>,
    i: int,
)
    requires
        0 <= i < names.len(),
    ensures
        all_named_bits(layers, names, formats) == all_named_bits(layers, names.remove(i), formats)
            + named_bits(layers, names[i], formats[names[i]]),
    decreases names.len(),
{
    let rest = names.drop_last();
    if i < rest.len() {
        bits_without(layers, rest, formats, i);
        assert(names.remove(i).drop_last() =~= rest.remove(i));
        assert(names.remove(i).last() == names.last());
    } else {
        assert(names.remove(i) =~= rest);
    }
}

/// Two lists of the same names take the same bits.
proof fn bits_in_any_order(
    layers: Seq<LayerSensitivity>,
    a: Seq<Seq<char>>,
    b: Seq<Seq<char>>,
    formats: Map<Seq<char>, Seq<char>>,
)
    requires
        a.no_duplicates(),
        b.no_duplicates(),
        forall|n: Seq<char>| a.contains(n) <==> b.contains(n),
    ensures
        all_named_bits(layers, a, formats) == all_named_bits(layers, b, formats),
    decreases a.len(),
{
    if a.len() == 0 {
        if b.len() > 0 {
            assert(b.contains(b[0]));
        }
    } else {
        let x = a.last();
        let rest = a.drop_last();
        assert(a[a.len() - 1] == x);
        assert(a.contains(x));
        let j = b.index_of(x);
        let less = b.remove(j);
        assert forall|n: Seq<char>| rest.contains(n) <==> less.contains(n) by {
            if rest.contains(n) {
                let k = rest.index_of(n);
                assert(a[k] == n);
                assert(a.contains(n));
                let m = b.index_of(n);
                assert(m != j);
                assert(less[if m < j { m } else { m - 1 }] == n);
            }
            if less.contains(n) {
                let k = less.index_of(n);
                let m = if k < j { k } else { k + 1 };
                assert(b[m] == n);
                assert(b.contains(n));
                let p = a.index_of(n);
                assert(n != x);
                assert(rest[p] == n);
            }
        }
        assert(less.no_duplicates()) by {
            assert forall|p: int, q: int|
                0 <= p < less.len() && 0 <= q < less.len() && p != q implies less[p] != less[q] by {
                let p2 = if p < j { p } else { p + 1 };
                let q2 = if q < j { q } else { q + 1 };
                assert(less[p] == b[p2] && less[q] == b[q2]);
            }
        }
        bits_in_any_order(layers, rest, less, formats);
        bits_without(layers, b, formats, j);
    }
}

/// Layers of distinct names take the bits of their formats, layer by layer.
proof fn bits_by_layer(
    layers: Seq<LayerSensitivity>,
    formats: Map<Seq<char>, Seq<char>>,
    n: int,
)
    requires
        distinct_names(layers),
        0 <= n <= layers.len(),
        forall|i: int|
            0 <= i < layers.len() ==> AllocFormat::named(
                formats[(#[trigger] layers[i]).name@],
            ) is Some,
    ensures
        all_named_bits(layers, layer_names(layers).take(n), formats) == assigned_bits(
            layers,
            formats_in(layers, formats).take(n),
        ),
    decreases n,
{
    if n > 0 {
        bits_by_layer(layers, formats, n - 1);
        let names = layer_names(layers).take(n);
        let fs = formats_in(layers, formats).take(n);
        assert(names.drop_last() =~= layer_names(layers).take(n - 1));
        assert(fs.drop_last() =~= formats_in(layers, formats).take(n - 1));
        assert(names.last() == layers[n - 1].name@);
        params_of_own_name(layers, n - 1);
    }
}

/// The bits of an assignment by name are those of its layers.
proof fn bits_by_name(
    layers: Seq<LayerSensitivity>,
    names: Seq<Seq<char>>,
    formats: Map<Seq<char>, Seq<char>>,
)
    requires
        distinct_names(layers),
        ascending(names),
        forall|n: Seq<char>| names.contains(n) <==> layer_names(layers).contains(n),
        forall|i: int|
            0 <= i < layers.len() ==> AllocFormat::named(
                formats[(#[trigger] layers[i]).name@],
            ) is Some,
    ensures
        all_named_bits(layers, names, formats) == assigned_bits(layers, formats_in(layers, formats)),
        all_named_bits(layers, layer_names(layers), formats) == assigned_bits(
            layers,
            formats_in(layers, formats),
        ),
{
    let own = layer_names(layers);
    let len = layers.len() as int;
    ascending_is_distinct(names, names.len() as int);
    assert(names.take(names.len() as int) =~= names);
    assert(own.no_duplicates()) by {
        assert forall|i: int, j: int| 0 <= i < own.len() && 0 <= j < own.len() && i != j implies
            own[i] != own[j] by {
            if i < j {
                assert(layers[i].name@ != layers[j].name@);
            } else {
                assert(layers[j].name@ != layers[i].name@);
            }
        }
    }
    bits_in_any_order(layers, names, own, formats);
    bits_by_layer(layers, formats, len);
    assert(own.take(len) =~= own);
    assert(formats_in(layers, formats).take(len) =~= formats_in(layers, formats));
}

/// The names of assigned layers are those of the layers.
proof fn names_of_layers(layers: Seq<LayerSensitivity>, assigned: Seq<AllocFormat>, name: Seq<char>)
    requires
        assigned.len() <= layers.len(),
        formats_by_name(layers, assigned).contains_key(name),
    ensures
        layer_names(layers).contains(name),
    decreases assigned.len(),
{
    if assigned.len() > 0 {
        let last = assigned.len() - 1;
        if layers[last].name@ == name {
            assert(layer_names(layers)[last] == name);
        } else {
            names_of_layers(layers, assigned.drop_last(), name);
        }
    }
}

/// Where layers have names of their own, the bits after promotion are the sum over the layers of
/// parameters times bits per parameter of the promoted format, and no fewer than the greedy ones.
pub proof fn promoted_bits_sum_over_layers(
    layers: Seq<LayerSensitivity>,
    formats: Seq<AllocFormat>,
    target: TargetBpp,
    assigned: Seq<AllocFormat>,
    r: PrismaAssignment,
)
    requires
        formats.len() > 0,
        distinct_names(layers),
        promotes_greedy(layers, formats, target, assigned, r),
    ensures
        r.achieved_bpp.bits == assigned_bits(layers, formats_in(layers, r.formats())),
        r.achieved_bpp.bits >= assigned_bits(layers, assigned),
{
    let plain = formats_by_name(layers, assigned);
    let own = layer_names(layers);
    let names = r.layers.names();
    assert(assigned.len() == layers.len());
    assert forall|i: int| 0 <= i < layers.len() implies AllocFormat::named(
        r.formats()[(#[trigger] layers[i]).name@],
    ) is Some && AllocFormat::named(plain[layers[i].name@]) == Some(assigned[i])
        && plain.contains_key(own[i]) && names.contains(own[i]) by {
        format_of_own_name(layers, assigned, i);
        name_reads_back(assigned[i]);
        promotion_keeps_precision(layers, formats, target, assigned, r, layers[i].name@);
    }
    assert forall|n: Seq<char>| names.contains(n) <==> own.contains(n) by {
        if own.contains(n) {
            let i = own.index_of(n);
            assert(layers[i].name@ == n);
        }
        if names.contains(n) {
            assert(r.formats().contains_key(n));
            assert(plain.contains_key(n));
            names_of_layers(layers, assigned, n);
        }
    }
    bits_by_name(layers, names, r.formats());
    bits_by_name(layers, names, plain);
    assert(formats_in(layers, plain) =~= assigned) by {
        assert forall|i: int| 0 <= i < layers.len() implies formats_in(layers, plain)[i]
            == assigned[i] by {
            assert(AllocFormat::named(plain[layers[i].name@]) == Some(assigned[i]));
        }
    }
    assert forall|i: int| 0 <= i < own.len() implies plain.contains_key(#[trigger] own[i]) by {
        assert(layers[i].name@ == own[i]);
    }
    promotion_adds_bits(layers, formats, target, assigned, r, own);
}

/// Where layers have names of their own, the average after promotion is no lower than that of the
/// greedy assignment: it counts as many parameters and no fewer bits.
pub proof fn promotion_costs_no_less_than_greedy(
    layers: Seq<LayerSensitivity>,
    formats: Seq<AllocFormat>,
    target: TargetBpp,
    assigned: Seq<AllocFormat>,
    plain: PrismaAssignment,
    starting: Seq<AllocFormat>,
    r: PrismaAssignment,
)
    requires
        formats.len() > 0,
        distinct_names(layers),
        total_params(layers) > 0,
        is_greedy(layers, formats, target, assigned),
        plain.records(layers, assigned, target),
        promotes_greedy(layers, formats, target, starting, r),
    ensures
        r.achieved_bpp.params == plain.achieved_bpp.params,
        r.achieved_bpp.bits >= plain.achieved_bpp.bits,
{
    greedy_is_unique(layers, formats, target, assigned, starting);
    promoted_bits_sum_over_layers(layers, formats, target, starting, r);
}

/// After promotion the members of a fused group share one format.
pub proof fn promoted_assignment_is_coherent(
    layers: Seq<LayerSensitivity>,
    formats: Seq<AllocFormat>,
    target: TargetBpp,
    assigned: Seq<AllocFormat>,
    r: PrismaAssignment,
    a: Seq<char>,
    b: Seq<char>,
)
    requires
        promotes_greedy(layers, formats, target, assigned, r),
        r.formats().contains_key(a),
        r.formats().contains_key(b),
        siblings(a, b),
    ensures
        r.formats()[a] == r.formats()[b],
{
    siblings_share_a_format(
        formats_by_name(layers, assigned),
        precision_ranks(formats),
        r.formats(),
        a,
        b,
    );
}

/// Whether the scores of `b` are those of `a` in a unit `c` times as fine.
pub open spec fn rescaled(a: Seq<LayerSensitivity>, b: Seq<LayerSensitivity>, c: int) -> bool {
    &&& a.len() == b.len()
    &&& forall|i: int|
        0 <= i < a.len() ==> (#[trigger] b[i]).score == c * a[i].score && b[i].n_params
            == a[i].n_params
}

proof fn rescaled_sums(
    a: Seq<LayerSensitivity>,
    b: Seq<LayerSensitivity>,
    c: int,
    formats: Seq<AllocFormat>,
    picks: Seq<usize>,
)
    requires
        rescaled(a, b, c),
        picks.len() <= a.len(),
    ensures
        picked_loss(b, formats, picks) == c * picked_loss(a, formats, picks),
        picked_bits(b, formats, picks) == picked_bits(a, formats, picks),
    decreases picks.len(),
{
    if picks.len() > 0 {
        rescaled_sums(a, b, c, formats, picks.drop_last());
        let i = picks.len() - 1;
        let s = a[i].score as int;
        let d = AllocFormat::Bf16.bpp() - formats[picks.last() as int].bpp();
        let rest = picked_loss(a, formats, picks.drop_last());
        assert(b[i].score == c * s && b[i].n_params == a[i].n_params);
        assert(c * rest + (c * s) * d == c * (rest + s * d)) by (nonlinear_arith);
    }
}

proof fn rescaled_total(a: Seq<LayerSensitivity>, b: Seq<LayerSensitivity>, c: int, n: int)
    requires
        rescaled(a, b, c),
        0 <= n <= a.len(),
    ensures
        total_params(a.take(n)) == total_params(b.take(n)),
    decreases n,
{
    if n > 0 {
        rescaled_total(a, b, c, n - 1);
        assert(a.take(n).drop_last() == a.take(n - 1));
        assert(b.take(n).drop_last() == b.take(n - 1));
        assert(b[n - 1].n_params == a[n - 1].n_params);
    }
}

/// The unit that scores are counted in makes no difference to the knapsack solver.
pub proof fn knapsack_ignores_the_unit(
    a: Seq<LayerSensitivity>,
    b: Seq<LayerSensitivity>,
    c: int,
    formats: Seq<AllocFormat>,
    target: TargetBpp,
    picks: Seq<usize>,
)
    requires
        c > 0,
        rescaled(a, b, c),
        knapsack_chose(a, formats, target, picks),
    ensures
        knapsack_chose(b, formats, target, picks),
{
    rescaled_total(a, b, c, a.len() as int);
    assert(a.take(a.len() as int) == a);
    assert(b.take(b.len() as int) == b);
    let budget = target.budget(total_params(a) as int);
    assert forall|p: Seq<usize>| within_budget(a, formats, budget, p) == within_budget(
        b,
        formats,
        budget,
        p,
    ) by {
        if p.len() == a.len() {
            rescaled_sums(a, b, c, formats, p);
        }
    }
    if exists|p: Seq<usize>| within_budget(a, formats, budget, p) {
        let w = choose|p: Seq<usize>| within_budget(a, formats, budget, p);
        assert(within_budget(b, formats, budget, w));
        rescaled_sums(a, b, c, formats, picks);
        assert forall|other: Seq<usize>| #[trigger]
            within_budget(b, formats, budget, other) implies preferred(
            b,
            formats,
            picks,
            other,
        ) by {
            assert(within_budget(a, formats, budget, other));
            rescaled_sums(a, b, c, formats, other);
            let x = picked_loss(a, formats, picks);
            let y = picked_loss(a, formats, other);
            assert(x < y ==> c * x < c * y) by (nonlinear_arith)
                requires
                    c > 0,
            ;
        }
        assert(best_picks(b, formats, budget, picks));
    } else {
        assert forall|i: int| 0 <= i < b.len() implies if weightless(b, i + 1) {
            first_best_format(b[i], formats, #[trigger] picks[i])
        } else {
            picks[i] == 0
        } by {
            assert(weightless(b, i + 1) == weightless(a, i + 1)) by {
                if weightless(a, i + 1) {
                    assert forall|k: int| 0 <= k < i + 1 implies (#[trigger] b[k]).n_params
                        == 0 by {
                        assert(a[k].n_params == 0);
                    }
                }
                if weightless(b, i + 1) {
                    assert forall|k: int| 0 <= k < i + 1 implies (#[trigger] a[k]).n_params
                        == 0 by {
                        assert(b[k].n_params == 0);
                    }
                }
            }
            if weightless(a, i + 1) {
                let f = picks[i];
                let s = a[i].score as int;
                assert(first_best_format(a[i], formats, f));
                assert(b[i].score == c * s);
                assert forall|g: int| 0 <= g < formats.len() implies {
                    let here = b[i].score * formats[f as int].bpp();
                    let there = b[i].score * (#[trigger] formats[g]).bpp();
                    there < here || (there == here && f <= g)
                } by {
                    let x = formats[f as int].bpp() as int;
                    let y = formats[g].bpp() as int;
                    assert(s * y < s * x || (s * y == s * x && f <= g));
                    assert((c * s) * x == c * (s * x)) by (nonlinear_arith);
                    assert((c * s) * y == c * (s * y)) by (nonlinear_arith);
                    let u = s * x;
                    let v = s * y;
                    assert(v < u ==> c * v < c * u) by (nonlinear_arith)
                        requires
                            c > 0,
                    ;
                }
            }
        }
    }
}

/// Picks stand for the listed formats at their places.
pub proof fn picks_stand_for_listed_formats(
    formats: Seq<AllocFormat>,
    picks: Seq<usize>,
    i: int,
)
    requires
        0 <= i < picks.len(),
    ensures
        picked_formats(formats, picks).len() == picks.len(),
        picked_formats(formats, picks)[i] == formats[picks[i] as int],
{
}

/// Moving one layer to another format moves the loss by the layer's score, times the bits per
/// parameter given up.
pub proof fn loss_moves_with_a_format(
    layers: Seq<LayerSensitivity>,
    assigned: Seq<AllocFormat>,
    i: int,
    f: AllocFormat,
)
    requires
        0 <= i < assigned.len() <= layers.len(),
    ensures
        assigned_loss(layers, assigned.update(i, f)) - assigned_loss(layers, assigned)
            == layers[i].score * (assigned[i].bpp() - f.bpp()),
    decreases assigned.len(),
{
    let after = assigned.update(i, f);
    if i == assigned.len() - 1 {
        assert(after.drop_last() =~= assigned.drop_last());
        let s = layers[i].score as int;
        let x = f.bpp() as int;
        let y = assigned[i].bpp() as int;
        let z = AllocFormat::Bf16.bpp() as int;
        assert(s * (z - x) - s * (z - y) == s * (y - x)) by (nonlinear_arith);
    } else {
        assert(after.drop_last() =~= assigned.drop_last().update(i, f));
        loss_moves_with_a_format(layers, assigned.drop_last(), i, f);
    }
}

/// Layers that all stay BF16 lose nothing.
pub proof fn bf16_loses_nothing(layers: Seq<LayerSensitivity>, assigned: Seq<AllocFormat>)
    requires
        assigned.len() <= layers.len(),
        forall|i: int| 0 <= i < assigned.len() ==> #[trigger] assigned[i] == AllocFormat::Bf16,
    ensures
        assigned_loss(layers, assigned) == 0,
    decreases assigned.len(),
{
    if assigned.len() > 0 {
        let rest = assigned.drop_last();
        assert forall|i: int| 0 <= i < rest.len() implies #[trigger] rest[i]
            == AllocFormat::Bf16 by {
            assert(assigned[i] == AllocFormat::Bf16);
        }
        bf16_loses_nothing(layers, rest);
        assert(assigned[assigned.len() - 1] == AllocFormat::Bf16);
        let s = layers[assigned.len() - 1].score as int;
        assert(s * 0 == 0);
    }
}

/// Of assignments within the target that lose as little, none takes more bits than the knapsack
/// one. Of those that take as many, the knapsack one has the earlier listed format for the last
/// layer in which they differ.
pub proof fn knapsack_breaks_ties(
    layers: Seq<LayerSensitivity>,
    formats: Seq<AllocFormat>,
    target: TargetBpp,
    picks: Seq<usize>,
    other: Seq<usize>,
)
    requires
        target.wf(),
        knapsack_chose(layers, formats, target, picks),
        other.len() == layers.len(),
        forall|i: int| 0 <= i < other.len() ==> #[trigger] other[i] < formats.len(),
        assigned_bits(layers, picked_formats(formats, other)) * target.params <= total_params(
            layers,
        ) * target.bits,
        assigned_loss(layers, picked_formats(formats, other)) == assigned_loss(
            layers,
            picked_formats(formats, picks),
        ),
    ensures
        picks.len() == layers.len(),
        assigned_bits(layers, picked_formats(formats, other)) <= assigned_bits(
            layers,
            picked_formats(formats, picks),
        ),
        assigned_bits(layers, picked_formats(formats, other)) == assigned_bits(
            layers,
            picked_formats(formats, picks),
        ) ==> forall|d: int|
            0 <= d < layers.len() && #[trigger] picks[d] != other[d] && (forall|i: int|
                d < i < layers.len() ==> #[trigger] picks[i] == other[i]) ==> picks[d] < other[d],
{
    let n = total_params(layers) as int;
    let budget = target.budget(n);
    picks_take_the_same_bits(layers, formats, other);
    picks_have_the_same_loss(layers, formats, other);
    picks_take_the_same_bits(layers, formats, picks);
    picks_have_the_same_loss(layers, formats, picks);
    budget_is_the_limit(target, n, picked_bits(layers, formats, other));
    assert(within_budget(layers, formats, budget, other));
    best_picks_lose_least(layers, formats, budget, picks, other);
    if picked_bits(layers, formats, other) == picked_bits(layers, formats, picks) {
        assert forall|d: int|
            0 <= d < layers.len() && #[trigger] picks[d] != other[d] && (forall|i: int|
                d < i < layers.len() ==> #[trigger] picks[i] == other[i]) implies picks[d]
            < other[d] by {
            best_picks_break_ties_from_the_end(layers, formats, budget, picks, other, d);
        }
    }
}

/// Where every assignment of listed formats passes the target, the knapsack one takes the first
/// format for every layer from the first one with parameters on.
pub proof fn knapsack_falls_back_to_the_first_format(
    layers: Seq<LayerSensitivity>,
    formats: Seq<AllocFormat>,
    target: TargetBpp,
    picks: Seq<usize>,
    i: int,
    g: int,
)
    requires
        target.wf(),
        knapsack_chose(layers, formats, target, picks),
        forall|other: Seq<AllocFormat>|
            other.len() == layers.len() && (forall|k: int|
                0 <= k < other.len() ==> formats.contains(#[trigger] other[k])) ==> #[trigger]
            assigned_bits(layers, other) * target.params > total_params(layers) * target.bits,
        0 <= i < layers.len(),
        0 <= g < formats.len(),
    ensures
        picks.len() == layers.len(),
        (exists|k: int| 0 <= k <= i && (#[trigger] layers[k]).n_params > 0) ==> picks[i] == 0,
        (forall|k: int| 0 <= k <= i ==> (#[trigger] layers[k]).n_params == 0) ==> {
            let here = layers[i].score * formats[picks[i] as int].bpp();
            let there = layers[i].score * formats[g].bpp();
            picks[i] < formats.len() && there <= here && (g < picks[i] ==> there < here)
        },
{
    let n = total_params(layers) as int;
    let budget = target.budget(n);
    assert forall|p: Seq<usize>| !within_budget(layers, formats, budget, p) by {
        if within_budget(layers, formats, budget, p) {
            let other = picked_formats(formats, p);
            picks_take_the_same_bits(layers, formats, p);
            budget_is_the_limit(target, n, picked_bits(layers, formats, p));
            assert forall|k: int| 0 <= k < other.len() implies formats.contains(
                #[trigger] other[k],
            ) by {
                assert(p[k] < formats.len());
                assert(other[k] == formats[p[k] as int]);
            }
            assert(assigned_bits(layers, other) * target.params > total_params(layers)
                * target.bits);
        }
    }
    fallback_takes_the_first_format(layers, formats, picks, i, g);
}

/// An assignment gives each layer's name the name of the format assigned to the last layer of that
/// name, and names nothing else.
pub proof fn formats_go_to_their_layers(
    layers: Seq<LayerSensitivity>,
    assigned: Seq<AllocFormat>,
    i: int,
)
    requires
        0 <= i < assigned.len() <= layers.len(),
        forall|j: int| i < j < assigned.len() ==> (#[trigger] layers[j]).name@ != layers[i].name@,
    ensures
        formats_by_name(layers, assigned).contains_key(layers[i].name@),
        formats_by_name(layers, assigned)[layers[i].name@] == assigned[i].label(),
    decreases assigned.len(),
{
    let rest = assigned.drop_last();
    if i < rest.len() {
        assert(layers[rest.len() as int].name@ != layers[i].name@);
        assert forall|j: int| i < j < rest.len() implies (#[trigger] layers[j]).name@
            != layers[i].name@ by {}
        formats_go_to_their_layers(layers, rest, i);
        assert(rest[i] == assigned[i]);
    }
}

/// Only names of layers are given a format.
pub proof fn only_layers_get_formats(
    layers: Seq<LayerSensitivity>,
    assigned: Seq<AllocFormat>,
    name: Seq<char>,
)
    requires
        assigned.len() <= layers.len(),
        formats_by_name(layers, assigned).contains_key(name),
    ensures
        exists|i: int| 0 <= i < assigned.len() && (#[trigger] layers[i]).name@ == name,
    decreases assigned.len(),
{
    if assigned.len() > 0 {
        let last = assigned.len() - 1;
        if layers[last].name@ != name {
            only_layers_get_formats(layers, assigned.drop_last(), name);
        }
    }
}

/// A recorded assignment says of each layer which format it was assigned and how many parameters
/// it has, and counts the bits and parameters of all.
pub proof fn records_say_what_was_assigned(
    r: PrismaAssignment,
    layers: Seq<LayerSensitivity>,
    assigned: Seq<AllocFormat>,
    target: TargetBpp,
    i: int,
)
    requires
        r.records(layers, assigned, target),
        assigned.len() == layers.len(),
        0 <= i < layers.len(),
    ensures
        (forall|j: int| i < j < layers.len() ==> (#[trigger] layers[j]).name@ != layers[i].name@)
            ==> r.layers@.contains_key(layers[i].name@) && r.layers@[layers[i].name@]@
            == assigned[i].label(),
        r.layers@.contains_key(layers[i].name@),
        forall|name: Seq<char>| #[trigger]
            r.layers@.contains_key(name) ==> exists|j: int|
                0 <= j < layers.len() && (#[trigger] layers[j]).name@ == name,
        r.per_layer_params@.len() == layers.len(),
        r.per_layer_params@[i].0@ == layers[i].name@,
        r.per_layer_params@[i].1 == layers[i].n_params,
        r.achieved_bpp.bits == assigned_bits(layers, assigned),
        r.achieved_bpp.params == total_params(layers),
        r.target_bpp == target,
{
    let named = formats_by_name(layers, assigned);
    assert(r.formats() == texts(r.layers@));
    assert(r.formats() == named);
    assert forall|n: Seq<char>| named.contains_key(n) <==> #[trigger] r.layers@.contains_key(n) by {
        assert(texts(r.layers@).contains_key(n) <==> r.layers@.contains_key(n));
    }
    if forall|j: int| i < j < layers.len() ==> (#[trigger] layers[j]).name@ != layers[i].name@ {
        formats_go_to_their_layers(layers, assigned, i);
    }
    every_layer_is_named(layers, assigned, i);
    assert forall|name: Seq<char>| #[trigger] r.layers@.contains_key(name) implies exists|j: int|
        0 <= j < layers.len() && (#[trigger] layers[j]).name@ == name by {
        only_layers_get_formats(layers, assigned, name);
    }
    assert(r.per_layer_params@[i].0@ == layers[i].name@);
}

proof fn every_layer_is_named(layers: Seq<LayerSensitivity>, assigned: Seq<AllocFormat>, i: int)
    requires
        0 <= i < assigned.len() <= layers.len(),
    ensures
        formats_by_name(layers, assigned).contains_key(layers[i].name@),
    decreases assigned.len(),
{
    if i < assigned.len() - 1 {
        every_layer_is_named(layers, assigned.drop_last(), i);
    }
}

/// An assignment for nothing assigns nothing, and averages the sixteen bits of dense weights.
pub proof fn vacant_assignments_are_empty(r: PrismaAssignment, target: TargetBpp, name: Seq<char>)
    requires
        r.is_vacant(target),
    ensures
        !r.layers@.contains_key(name),
        r.per_layer_params@.len() == 0,
        r.achieved_bpp.params > 0,
        r.achieved_bpp.bits == AllocFormat::Bf16.bpp() * r.achieved_bpp.params,
        r.target_bpp == target,
{
    assert(r.formats().contains_key(name) <==> r.layers@.contains_key(name));
}

/// A listed format's name ranks by the precision of the format, and no other name is ranked.
pub proof fn listed_formats_rank_by_precision(formats: Seq<AllocFormat>, f: AllocFormat)
    ensures
        precision_ranks(formats).contains_key(f.label()) <==> formats.contains(f),
        formats.contains(f) ==> precision_ranks(formats)[f.label()] == f.precision(),
    decreases formats.len(),
{
    if formats.len() > 0 {
        let rest = formats.drop_last();
        listed_formats_rank_by_precision(rest, f);
        name_reads_back(f);
        name_reads_back(formats.last());
        if formats.contains(f) && f != formats.last() {
            let i = formats.index_of(f);
            assert(rest[i] == f);
        }
        if rest.contains(f) {
            let i = rest.index_of(f);
            assert(formats[i] == f);
        }
        assert(formats[formats.len() - 1] == formats.last());
        if f != formats.last() {
            assert(f.label() != formats.last().label());
        }
    }
}

/// The parameters found under a name are those of the first layer of that name.
pub proof fn first_layer_of_a_name_counts(
    layers: Seq<LayerSensitivity>,
    name: Seq<char>,
    i: int,
)
    requires
        0 <= i < layers.len(),
        layers[i].name@ == name,
        forall|j: int| 0 <= j < i ==> (#[trigger] layers[j]).name@ != name,
    ensures
        params_of(layers, name) == Some(layers[i].n_params),
    decreases layers.len(),
{
    let rest = layers.drop_last();
    if i < rest.len() {
        assert(rest[i] == layers[i]);
        assert forall|j: int| 0 <= j < i implies (#[trigger] rest[j]).name@ != name by {
            assert(layers[j].name@ != name);
        }
        first_layer_of_a_name_counts(rest, name, i);
    } else {
        assert forall|j: int| 0 <= j < rest.len() implies (#[trigger] rest[j]).name@ != name by {
            assert(layers[j].name@ != name);
        }
        no_params_of_other_names(rest, name);
    }
}

/// The bits of two lists of names add up.
pub proof fn named_bits_add_up(
    layers: Seq<LayerSensitivity>,
    a: Seq<Seq<char>>,
    b: Seq<Seq<char>>,
    formats: Map<Seq<char>, Seq<char>>,
)
    ensures
        all_named_bits(layers, a + b, formats) == all_named_bits(layers, a, formats)
            + all_named_bits(layers, b, formats),
    decreases b.len(),
{
    if b.len() == 0 {
        assert(a + b =~= a);
    } else {
        named_bits_add_up(layers, a, b.drop_last(), formats);
        assert((a + b).drop_last() =~= a + b.drop_last());
    }
}

/// One name takes the bits of its format for each parameter of the first layer of that name.
pub proof fn one_name_takes_its_bits(
    layers: Seq<LayerSensitivity>,
    i: int,
    formats: Map<Seq<char>, Seq<char>>,
    f: AllocFormat,
)
    requires
        0 <= i < layers.len(),
        forall|j: int| 0 <= j < i ==> (#[trigger] layers[j]).name@ != layers[i].name@,
        AllocFormat::named(formats[layers[i].name@]) == Some(f),
    ensures
        all_named_bits(layers, seq![layers[i].name@], formats) == layers[i].n_params * f.bpp(),
{
    let name = layers[i].name@;
    first_layer_of_a_name_counts(layers, name, i);
    reveal_with_fuel(all_named_bits, 2);
    assert(seq![name].drop_last() =~= Seq::<Seq<char>>::empty());
    assert(seq![name].last() == name);
}

/// After promotion a layer is in a format that one of its siblings was assigned, and none of them
/// was assigned a more precise one.
pub proof fn promotion_takes_the_groups_best_format(
    layers: Seq<LayerSensitivity>,
    formats: Seq<AllocFormat>,
    target: TargetBpp,
    assigned: Seq<AllocFormat>,
    r: PrismaAssignment,
    i: int,
    j: int,
)
    requires
        formats.len() > 0,
        distinct_names(layers),
        promotes_greedy(layers, formats, target, assigned, r),
        0 <= i < layers.len(),
        0 <= j < layers.len(),
        siblings(layers[i].name@, layers[j].name@),
    ensures
        r.layers@.contains_key(layers[i].name@),
        AllocFormat::named(r.layers@[layers[i].name@]@) matches Some(f) && assigned[j].bpp()
            <= f.bpp() && r.layers@[layers[i].name@]@ == f.label() && exists|k: int|
            0 <= k < layers.len() && siblings(layers[i].name@, (#[trigger] layers[k]).name@) && f
                == assigned[k],
{
    let plain = formats_by_name(layers, assigned);
    let ranks = precision_ranks(formats);
    let a = layers[i].name@;
    let b = layers[j].name@;
    format_of_own_name(layers, assigned, i);
    format_of_own_name(layers, assigned, j);
    promotion_takes_the_highest_rank(plain, ranks, r.formats(), a, b);
    promotion_takes_a_siblings_format(plain, ranks, r.formats(), a);
    let lead = choose|x: Seq<char>| #[trigger]
        plain.contains_key(x) && siblings(a, x) && r.formats()[a] == plain[x];
    only_layers_get_formats(layers, assigned, lead);
    let k = choose|k: int| 0 <= k < assigned.len() && (#[trigger] layers[k]).name@ == lead;
    format_of_own_name(layers, assigned, k);
    let f = assigned[k];
    name_reads_back(f);
    assert(r.formats().contains_key(a));
    assert(r.formats()[a] == r.layers@[a]@);
    greedy_assigns_listed_formats(layers, formats, target, assigned, k);
    greedy_assigns_listed_formats(layers, formats, target, assigned, j);
    listed_formats_rank_by_precision(formats, f);
    listed_formats_rank_by_precision(formats, assigned[j]);
    bits_follow_precision(f, assigned[j]);
    assert(siblings(layers[i].name@, layers[k].name@) && f == assigned[k]);
}

/// A promoted assignment names the layers and no others, lists their parameters in order, counts
/// the bits under its names, and averages over all parameters, or over one where there are none.
pub proof fn promoted_assignments_count_all_layers(
    layers: Seq<LayerSensitivity>,
    formats: Seq<AllocFormat>,
    target: TargetBpp,
    assigned: Seq<AllocFormat>,
    r: PrismaAssignment,
    i: int,
)
    requires
        promotes_greedy(layers, formats, target, assigned, r),
        0 <= i < layers.len(),
    ensures
        r.layers@.contains_key(layers[i].name@),
        forall|name: Seq<char>| #[trigger]
            r.layers@.contains_key(name) ==> exists|j: int|
                0 <= j < layers.len() && (#[trigger] layers[j]).name@ == name,
        r.per_layer_params@.len() == layers.len(),
        r.per_layer_params@[i].0@ == layers[i].name@,
        r.per_layer_params@[i].1 == layers[i].n_params,
        total_params(layers) > 0 ==> r.achieved_bpp.params == total_params(layers),
        total_params(layers) == 0 ==> r.achieved_bpp.params == 1,
        r.achieved_bpp.bits == all_named_bits(layers, r.layers.names(), texts(r.layers@)),
{
    let plain = formats_by_name(layers, assigned);
    assert(assigned.len() == layers.len());
    every_layer_is_named(layers, assigned, i);
    assert forall|n: Seq<char>| plain.contains_key(n) <==> #[trigger] r.layers@.contains_key(n) by {
        assert(r.formats().contains_key(n) <==> r.layers@.contains_key(n));
        assert(r.formats().dom().contains(n) <==> plain.dom().contains(n));
    }
    assert forall|name: Seq<char>| #[trigger] r.layers@.contains_key(name) implies exists|j: int|
        0 <= j < layers.len() && (#[trigger] layers[j]).name@ == name by {
        only_layers_get_formats(layers, assigned, name);
    }
    assert(r.per_layer_params@[i].0@ == layers[i].name@);
}

/// The parameters of two lists add up.
pub proof fn listed_params_add_up(a: Seq<(String, usize)>, b: Seq<(String, usize)>)
    ensures
        listed_total(a + b) == listed_total(a) + listed_total(b),
    decreases b.len(),
{
    if b.len() == 0 {
        assert(a + b =~= a);
    } else {
        listed_params_add_up(a, b.drop_last());
        assert((a + b).drop_last() =~= a + b.drop_last());
    }
}

/// The parameters listed for layers are those of the layers.
pub proof fn listed_params_are_the_layers(
    layers: Seq<LayerSensitivity>,
    list: Seq<(String, usize)>,
)
    requires
        list.len() == layers.len(),
        forall|i: int| 0 <= i < list.len() ==> (#[trigger] list[i]).1 == layers[i].n_params,
    ensures
        listed_total(list) == total_params(layers),
    decreases list.len(),
{
    if list.len() > 0 {
        assert forall|i: int| 0 <= i < list.drop_last().len() implies (
        #[trigger] list.drop_last()[i]).1 == layers.drop_last()[i].n_params by {
            assert(list[i].1 == layers[i].n_params);
        }
        listed_params_are_the_layers(layers.drop_last(), list.drop_last());
        assert(list[list.len() - 1].1 == layers[list.len() - 1].n_params);
    }
}

/// Whether a payload is that of an assignment.
pub open spec fn exports(assignment: PrismaAssignment, r: ExportPayload) -> bool {
    &&& r.layers@ == assignment.layers@
    &&& r.achieved_bpp == assignment.achieved_bpp
    &&& r.target_bpp == assignment.target_bpp
    &&& r.total_params == listed_total(assignment.per_layer_params@)
    &&& r.num_layers == assignment.layers.names().len()
    &&& r.layer_params@.len() == assignment.per_layer_params@.len()
    &&& forall|i: int|
        0 <= i < r.layer_params@.len() ==> (#[trigger] r.layer_params@[i]).0@
            == assignment.per_layer_params@[i].0@ && r.layer_params@[i].1
            == assignment.per_layer_params@[i].1
}

/// The payload of a recorded assignment lists every layer's format and parameters, and counts all
/// parameters, the bits they take, and the named layers.
pub proof fn payloads_tell_the_whole_assignment(
    a: PrismaAssignment,
    r: ExportPayload,
    layers: Seq<LayerSensitivity>,
    assigned: Seq<AllocFormat>,
    target: TargetBpp,
    i: int,
)
    requires
        a.records(layers, assigned, target),
        exports(a, r),
        assigned.len() == layers.len(),
        0 <= i < layers.len(),
    ensures
        (forall|j: int| i < j < layers.len() ==> (#[trigger] layers[j]).name@ != layers[i].name@)
            ==> r.layers@.contains_key(layers[i].name@) && r.layers@[layers[i].name@]@
            == assigned[i].label(),
        r.layer_params@.len() == layers.len(),
        r.layer_params@[i].0@ == layers[i].name@,
        r.layer_params@[i].1 == layers[i].n_params,
        r.total_params == total_params(layers),
        r.achieved_bpp.bits == assigned_bits(layers, assigned),
        r.achieved_bpp.params == r.total_params,
        r.target_bpp == target,
        ascending(a.layers.names()) ==> r.num_layers == r.layers@.dom().len(),
{
    records_say_what_was_assigned(a, layers, assigned, target, i);
    assert forall|k: int| 0 <= k < layers.len() implies (
    #[trigger] a.per_layer_params@[k]).1 == layers[k].n_params by {
        records_say_what_was_assigned(a, layers, assigned, target, k);
    }
    listed_params_are_the_layers(layers, a.per_layer_params@);
    assert(r.layer_params@[i].0@ == a.per_layer_params@[i].0@);
    if ascending(a.layers.names()) {
        let names = a.layers.names();
        ascending_is_distinct(names, names.len() as int);
        assert(names.take(names.len() as int) =~= names);
        names.unique_seq_to_set();
        assert(names.to_set() =~= a.layers@.dom());
    }
}

/// Whether an assignment with promotion is that for no layers or no formats: nothing is assigned,
/// and nothing spent.
pub open spec fn promotes_nothing(r: PrismaAssignment) -> bool {
    &&& r.formats() == Map::<Seq<char>, Seq<char>>::empty()
    &&& r.per_layer_params@.len() == 0
    &&& r.achieved_bpp.bits == 0
    &&& r.achieved_bpp.params == 1
}

/// Promoting nothing spends no bits on no layers.
pub proof fn promoting_nothing_spends_nothing(r: PrismaAssignment, name: Seq<char>)
    requires
        promotes_nothing(r),
    ensures
        !r.layers@.contains_key(name),
        r.per_layer_params@.len() == 0,
        r.achieved_bpp.bits == 0,
        r.achieved_bpp.params > 0,
{
    assert(r.formats().contains_key(name) <==> r.layers@.contains_key(name));
}

/// Whether an assignment is the one that greedy allocation makes.
pub open spec fn allocates_greedily(
    layers: Seq<LayerSensitivity>,
    formats: Seq<AllocFormat>,
    target: TargetBpp,
    r: PrismaAssignment,
) -> bool {
    if layers.len() == 0 || formats.len() == 0 {
        r.is_vacant(target)
    } else {
        exists|assigned: Seq<AllocFormat>| #[trigger]
            is_greedy(layers, formats, target, assigned) && r.records(layers, assigned, target)
    }
}

/// Whether an assignment is the one that the knapsack solver makes.
pub open spec fn allocates_by_knapsack(
    layers: Seq<LayerSensitivity>,
    formats: Seq<AllocFormat>,
    target: TargetBpp,
    r: PrismaAssignment,
) -> bool {
    if layers.len() == 0 || formats.len() == 0 {
        r.is_vacant(target)
    } else {
        exists|picks: Seq<usize>| #[trigger]
            knapsack_chose(layers, formats, target, picks) && r.records(
                layers,
                picked_formats(formats, picks),
                target,
            )
    }
}

/// Greedy allocation says the same of the same layers every time.
pub proof fn greedy_allocations_agree(
    layers: Seq<LayerSensitivity>,
    formats: Seq<AllocFormat>,
    target: TargetBpp,
    a: PrismaAssignment,
    b: PrismaAssignment,
)
    requires
        allocates_greedily(layers, formats, target, a),
        allocates_greedily(layers, formats, target, b),
    ensures
        a.formats() == b.formats(),
        a.achieved_bpp == b.achieved_bpp,
        a.target_bpp == b.target_bpp,
        a.per_layer_params@.len() == b.per_layer_params@.len(),
{
    if layers.len() > 0 && formats.len() > 0 {
        let x = choose|x: Seq<AllocFormat>| #[trigger]
            is_greedy(layers, formats, target, x) && a.records(layers, x, target);
        let y = choose|y: Seq<AllocFormat>| #[trigger]
            is_greedy(layers, formats, target, y) && b.records(layers, y, target);
        greedy_is_unique(layers, formats, target, x, y);
    }
}

/// Where layers have names of their own, greedy allocation achieves at least the target, or every
/// layer with parameters is in a format that takes the most bits of all listed.
pub proof fn greedy_allocations_achieve_the_target(
    layers: Seq<LayerSensitivity>,
    formats: Seq<AllocFormat>,
    target: TargetBpp,
    r: PrismaAssignment,
)
    requires
        layers.len() > 0,
        formats.len() > 0,
        distinct_names(layers),
        allocates_greedily(layers, formats, target, r),
    ensures
        r.achieved_bpp.params == total_params(layers),
        r.achieved_bpp.bits * target.params >= r.achieved_bpp.params * target.bits || forall|
            i: int,
            k: int,
        |
            0 <= i < layers.len() && (#[trigger] layers[i]).n_params > 0 && 0 <= k < formats.len()
                ==> (AllocFormat::named(r.layers@[layers[i].name@]@) matches Some(f) && (
            #[trigger] formats[k]).bpp() <= f.bpp()),
{
    let assigned = choose|x: Seq<AllocFormat>| #[trigger]
        is_greedy(layers, formats, target, x) && r.records(layers, x, target);
    greedy_spends_up_to_the_target(layers, formats, target, assigned);
    if !(r.achieved_bpp.bits * target.params >= r.achieved_bpp.params * target.bits) {
        assert forall|i: int, k: int|
            0 <= i < layers.len() && (#[trigger] layers[i]).n_params > 0 && 0 <= k
                < formats.len() implies (AllocFormat::named(
            r.layers@[layers[i].name@]@,
        ) matches Some(f) && (#[trigger] formats[k]).bpp() <= f.bpp()) by {
            records_say_what_was_assigned(r, layers, assigned, target, i);
            name_reads_back(assigned[i]);
            assert(formats[k].bpp() <= assigned[i].bpp());
        }
    }
}

/// Where layers have names of their own, greedy allocation gives a layer more than the least bits
/// only where every more sensitive layer with parameters has the most.
pub proof fn greedy_allocations_favour_the_most_sensitive(
    layers: Seq<LayerSensitivity>,
    formats: Seq<AllocFormat>,
    target: TargetBpp,
    r: PrismaAssignment,
    i: int,
    j: int,
    m: int,
    k: int,
)
    requires
        distinct_names(layers),
        allocates_greedily(layers, formats, target, r),
        0 <= i < layers.len(),
        0 <= j < layers.len(),
        layers[i].n_params > 0,
        layers[i].score > layers[j].score || (layers[i].score == layers[j].score && i < j),
        0 <= m < formats.len(),
        AllocFormat::named(r.layers@[layers[j].name@]@) matches Some(f) && formats[m].bpp()
            < f.bpp(),
        0 <= k < formats.len(),
    ensures
        AllocFormat::named(r.layers@[layers[i].name@]@) matches Some(f) && formats[k].bpp()
            <= f.bpp(),
{
    let assigned = choose|x: Seq<AllocFormat>| #[trigger]
        is_greedy(layers, formats, target, x) && r.records(layers, x, target);
    assert(assigned.len() == layers.len());
    records_say_what_was_assigned(r, layers, assigned, target, i);
    records_say_what_was_assigned(r, layers, assigned, target, j);
    name_reads_back(assigned[i]);
    name_reads_back(assigned[j]);
    greedy_fills_the_most_sensitive_first(layers, formats, target, assigned, i, j, m, k);
}

/// Where any assignment of listed formats is within the target, what the knapsack solver achieves
/// is too.
pub proof fn knapsack_allocations_keep_the_target(
    layers: Seq<LayerSensitivity>,
    formats: Seq<AllocFormat>,
    target: TargetBpp,
    r: PrismaAssignment,
    other: Seq<AllocFormat>,
)
    requires
        target.wf(),
        layers.len() > 0,
        0 < formats.len() <= usize::MAX,
        allocates_by_knapsack(layers, formats, target, r),
        other.len() == layers.len(),
        forall|i: int| 0 <= i < other.len() ==> formats.contains(#[trigger] other[i]),
        assigned_bits(layers, other) * target.params <= total_params(layers) * target.bits,
    ensures
        r.achieved_bpp.params == total_params(layers),
        r.achieved_bpp.bits * target.params <= r.achieved_bpp.params * target.bits,
{
    let picks = choose|p: Seq<usize>| #[trigger]
        knapsack_chose(layers, formats, target, p) && r.records(
            layers,
            picked_formats(formats, p),
            target,
        );
    knapsack_is_optimal(layers, formats, target, picks, other);
}

/// Allocating for no layers, or from no formats, gives the empty assignment.
pub proof fn allocations_of_nothing_are_vacant(
    layers: Seq<LayerSensitivity>,
    formats: Seq<AllocFormat>,
    target: TargetBpp,
    r: PrismaAssignment,
    name: Seq<char>,
)
    requires
        layers.len() == 0 || formats.len() == 0,
        allocates_greedily(layers, formats, target, r) || allocates_by_knapsack(
            layers,
            formats,
            target,
            r,
        ),
    ensures
        !r.layers@.contains_key(name),
        r.per_layer_params@.len() == 0,
        r.achieved_bpp.params > 0,
        r.achieved_bpp.bits == AllocFormat::Bf16.bpp() * r.achieved_bpp.params,
        r.target_bpp == target,
{
    vacant_assignments_are_empty(r, target, name);
}

} // verus!
