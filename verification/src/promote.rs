//! One format for every group of layers that are served fused.
use crate::disjoint::DisjointSets;
use crate::names::{ascending, paired, paired_at, NameMap};
use crate::text::{
    chars_of, precedes, precedes_irreflexive, precedes_total, precedes_transitive, spells,
};
use vstd::prelude::*;
use vstd::slice::slice_subrange;
use vstd::string::StrSliceExecFns;

verus! {

/// Projections that are served as one.
#[derive(Debug, Clone, Copy, PartialEq, Eq, Structural)]
pub enum FusedKind {
    /// `q_proj`, `k_proj` and `v_proj` of an attention module.
    Qkv,
    /// `gate_proj`, `up_proj` and `down_proj` of an MLP or expert.
    GateUpDown,
}

/// Place of the last dot, -1 where there is none.
pub open spec fn last_dot(s: Seq<char>) -> int
    decreases s.len(),
{
    if s.len() == 0 {
        -1
    } else if s.last() == '.' {
        s.len() - 1
    } else {
        last_dot(s.drop_last())
    }
}

/// The last dot is a place in the text.
pub proof fn last_dot_inside(s: Seq<char>)
    ensures
        -1 <= last_dot(s) < s.len(),
    decreases s.len(),
{
    if s.len() > 0 {
        last_dot_inside(s.drop_last());
    }
}

/// The fused projections that a part of a layer's name stands for.
pub open spec fn fused_kind(part: Seq<char>) -> Option<FusedKind> {
    if part == "gate_proj"@ || part == "up_proj"@ || part == "down_proj"@ {
        Some(FusedKind::GateUpDown)
    } else if part == "q_proj"@ || part == "k_proj"@ || part == "v_proj"@ {
        Some(FusedKind::Qkv)
    } else {
        None
    }
}

/// The fused group of a layer: the projections it joins, and the path of the module they share.
///
/// The last part of the name that is a fused projection counts. The path of the module is what
/// stands before it, and parts after it make no difference.
pub open spec fn group_of(name: Seq<char>) -> Option<(FusedKind, Seq<char>)>
    decreases name.len(),
{
    let d = last_dot(name);
    if d < 0 {
        None
    } else {
        proof {
            last_dot_inside(name);
        }
        match fused_kind(name.skip(d + 1)) {
            Some(kind) => Some((kind, name.take(d))),
            None => group_of(name.take(d)),
        }
    }
}

/// Whether two layers share one format: they are the same, or of one fused group.
pub open spec fn siblings(a: Seq<char>, b: Seq<char>) -> bool {
    a == b || (group_of(a) is Some && group_of(a) == group_of(b))
}

/// Rank of a format name; a name without a rank counts as rank zero.
pub open spec fn rank_in(ranks: Map<Seq<char>, usize>, format: Seq<char>) -> int {
    if ranks.contains_key(format) {
        ranks[format] as int
    } else {
        0
    }
}

/// The texts of a map's values.
pub open spec fn texts(m: Map<Seq<char>, String>) -> Map<Seq<char>, Seq<char>> {
    m.map_values(|s: String| s@)
}

/// Whether `lead` is the sibling of `name` whose format the group takes: the one of highest
/// rank, and of those the last in name order.
pub open spec fn leads(
    layers: Map<Seq<char>, Seq<char>>,
    ranks: Map<Seq<char>, usize>,
    name: Seq<char>,
    lead: Seq<char>,
) -> bool {
    &&& layers.contains_key(lead)
    &&& siblings(name, lead)
    &&& forall|m: Seq<char>| #[trigger]
        layers.contains_key(m) && siblings(name, m) ==> {
            ||| rank_in(ranks, layers[m]) < rank_in(ranks, layers[lead])
            ||| rank_in(ranks, layers[m]) == rank_in(ranks, layers[lead]) && !precedes(lead, m)
        }
}

/// Whether a format is the one that the fused group of `name` takes.
pub open spec fn taken_by_group(
    layers: Map<Seq<char>, Seq<char>>,
    ranks: Map<Seq<char>, usize>,
    name: Seq<char>,
    format: Seq<char>,
) -> bool {
    exists|lead: Seq<char>| #[trigger]
        leads(layers, ranks, name, lead) && format == layers[lead]
}

/// Whether `out` is `layers` with every fused group promoted.
pub open spec fn promoted(
    layers: Map<Seq<char>, Seq<char>>,
    ranks: Map<Seq<char>, usize>,
    out: Map<Seq<char>, Seq<char>>,
) -> bool {
    &&& out.dom() == layers.dom()
    &&& forall|name: Seq<char>|
        layers.contains_key(name) ==> #[trigger] taken_by_group(layers, ranks, name, out[name])
}

/// The last dot among the first `end` characters.
fn find_last_dot(chars: &Vec<char>, end: usize) -> (r: Option<usize>)
    requires
        end <= chars@.len(),
    ensures
        match r {
            Some(d) => d < end && last_dot(chars@.take(end as int)) == d,
            None => last_dot(chars@.take(end as int)) == -1,
        },
{
    let mut i: usize = end;
    while i > 0
        invariant
            i <= end <= chars@.len(),
            last_dot(chars@.take(end as int)) == last_dot(chars@.take(i as int)),
        decreases i,
    {
        assert(chars@.take(i as int).drop_last() == chars@.take(i - 1));
        if chars[i - 1] == '.' {
            return Some(i - 1);
        }
        i = i - 1;
    }
    None
}

/// The fused projections that a part of a layer's name stands for.
fn kind_of_part(part: &[char]) -> (r: Option<FusedKind>)
    ensures
        r == fused_kind(part@),
{
    if spells(part, "gate_proj") || spells(part, "up_proj") || spells(part, "down_proj") {
        Some(FusedKind::GateUpDown)
    } else if spells(part, "q_proj") || spells(part, "k_proj") || spells(part, "v_proj") {
        Some(FusedKind::Qkv)
    } else {
        None
    }
}

/// The fused group of a layer.
pub fn fused_group(name: &str) -> (r: Option<(FusedKind, String)>)
    ensures
        match r {
            Some((kind, path)) => group_of(name@) == Some((kind, path@)),
            None => group_of(name@) is None,
        },
{
    let chars: Vec<char> = chars_of(name);
    let mut end: usize = chars.len();
    assert(name@.take(end as int) == name@);
    loop
        invariant
            chars@ == name@,
            end <= name@.len(),
            group_of(name@) == group_of(name@.take(end as int)),
        decreases end,
    {
        let d: usize = match find_last_dot(&chars, end) {
            Some(d) => d,
            None => {
                return None;
            },
        };
        let part: &[char] = slice_subrange(chars.as_slice(), d + 1, end);
        assert(part@ == name@.take(end as int).skip(d + 1));
        assert(name@.take(end as int).take(d as int) == name@.take(d as int));
        if let Some(kind) = kind_of_part(part) {
            return Some((kind, name.substring_char(0, d).to_string()));
        }
        end = d;
    }
}

/// Whether `firsts` knows an earlier member of every group of one kind met so far.
spec fn firsts_ok(
    names: Seq<Seq<char>>,
    firsts: Map<Seq<char>, usize>,
    kind: FusedKind,
    seen: int,
) -> bool {
    &&& forall|path: Seq<char>| #[trigger]
        firsts.contains_key(path) ==> firsts[path] < seen && group_of(names[firsts[path] as int])
            == Some((kind, path))
    &&& forall|j: int|
        #![trigger names[j]]
        0 <= j < seen ==> match group_of(names[j]) {
            Some((k, path)) => k == kind ==> firsts.contains_key(path),
            None => true,
        }
}

/// Whether the sets join exactly the siblings among the first `seen` names.
spec fn joined(names: Seq<Seq<char>>, roots: Seq<usize>, seen: int) -> bool {
    &&& roots.len() == names.len()
    &&& forall|a: int, b: int|
        #![trigger roots[a], roots[b]]
        0 <= a < names.len() && 0 <= b < names.len() ==> (roots[a] == roots[b] <==> a == b || (a
            < seen && b < seen && siblings(names[a], names[b])))
}

/// Taking in one more name whose group has an earlier member `j`.
proof fn join_next(
    names: Seq<Seq<char>>,
    before: Seq<usize>,
    after: Seq<usize>,
    i: int,
    j: int,
)
    requires
        ascending(names),
        0 <= j < i < names.len(),
        joined(names, before, i),
        group_of(names[i]) is Some,
        group_of(names[j]) == group_of(names[i]),
        after.len() == before.len(),
        forall|k: int|
            0 <= k < before.len() ==> #[trigger] after[k] == if before[k] == before[i] {
                before[j]
            } else {
                before[k]
            },
    ensures
        joined(names, after, i + 1),
{
    assert forall|a: int, b: int|
        #![trigger after[a], after[b]]
        0 <= a < names.len() && 0 <= b < names.len() implies (after[a] == after[b] <==> a == b || (a
        < i + 1 && b < i + 1 && siblings(names[a], names[b]))) by {
        assert(before[a] == before[i] <==> a == i);
        assert(before[b] == before[i] <==> b == i);
        assert(before[a] == before[j] <==> a == j || (a < i && siblings(names[a], names[j])));
        assert(before[b] == before[j] <==> b == j || (b < i && siblings(names[b], names[j])));
        assert(before[a] == before[b] <==> a == b || (a < i && b < i && siblings(
            names[a],
            names[b],
        )));
    }
}

/// Taking in one more name that is the first of its group, or of none.
proof fn join_none(names: Seq<Seq<char>>, roots: Seq<usize>, i: int)
    requires
        ascending(names),
        0 <= i < names.len(),
        joined(names, roots, i),
        forall|j: int|
            0 <= j < i && group_of(names[i]) is Some ==> group_of(#[trigger] names[j]) != group_of(
                names[i],
            ),
    ensures
        joined(names, roots, i + 1),
{
    assert forall|a: int, b: int|
        #![trigger roots[a], roots[b]]
        0 <= a < names.len() && 0 <= b < names.len() implies (roots[a] == roots[b] <==> a == b || (a
        < i + 1 && b < i + 1 && siblings(names[a], names[b]))) by {
        if a != b && (a == i || b == i) && a < i + 1 && b < i + 1 && siblings(names[a], names[b]) {
            if names[a] == names[b] {
                precedes_irreflexive(names[a]);
                if a < b {
                    assert(precedes(names[a], names[b]));
                } else {
                    assert(precedes(names[b], names[a]));
                }
            }
            if a == i {
                assert(group_of(names[b]) != group_of(names[i]));
            } else {
                assert(group_of(names[a]) != group_of(names[i]));
            }
        }
    }
}

/// The layers as disjoint sets of siblings.
fn fuse(layers: &NameMap<String>) -> (r: DisjointSets)
    ensures
        r.wf(),
        joined(layers.names(), r@, layers.names().len() as int),
{
    let n: usize = layers.len();
    let ghost names = layers.names();
    let mut sets = DisjointSets::new(n);
    let mut qkv: NameMap<usize> = NameMap::new();
    let mut mlp: NameMap<usize> = NameMap::new();
    for i in 0..n
        invariant
            names == layers.names(),
            n == names.len(),
            ascending(names),
            sets.wf(),
            joined(names, sets@, i as int),
            firsts_ok(names, qkv@, FusedKind::Qkv, i as int),
            firsts_ok(names, mlp@, FusedKind::GateUpDown, i as int),
    {
        let ghost before = sets@;
        let ghost qkv0 = qkv@;
        let ghost mlp0 = mlp@;
        match fused_group(layers.name_at(i).as_str()) {
            None => {
                proof {
                    join_none(names, before, i as int);
                }
            },
            Some((kind, path)) => {
                let ghost key = path@;
                let known: Option<usize> = match kind {
                    FusedKind::Qkv => match qkv.get(path.as_str()) {
                        Some(j) => Some(*j),
                        None => None,
                    },
                    FusedKind::GateUpDown => match mlp.get(path.as_str()) {
                        Some(j) => Some(*j),
                        None => None,
                    },
                };
                match known {
                    Some(j) => {
                        sets.union(j, i);
                        proof {
                            join_next(names, before, sets@, i as int, j as int);
                        }
                    },
                    None => {
                        proof {
                            join_none(names, before, i as int);
                        }
                        match kind {
                            FusedKind::Qkv => {
                                qkv.insert(path, i);
                            },
                            FusedKind::GateUpDown => {
                                mlp.insert(path, i);
                            },
                        }
                    },
                }
            },
        }
    }
    sets
}

/// The rank of every layer's format, in name order.
fn ranks_of(layers: &NameMap<String>, format_rank: &NameMap<usize>) -> (r: Vec<usize>)
    ensures
        r@.len() == layers.names().len(),
        forall|i: int|
            0 <= i < r@.len() ==> #[trigger] r@[i] == rank_in(
                format_rank@,
                layers.values()[i]@,
            ),
{
    let n: usize = layers.len();
    let mut out: Vec<usize> = Vec::new();
    for i in 0..n
        invariant
            n == layers.names().len(),
            out@.len() == i,
            forall|k: int|
                0 <= k < i ==> #[trigger] out@[k] == rank_in(format_rank@, layers.values()[k]@),
    {
        let rank: usize = match format_rank.get(layers.value_at(i).as_str()) {
            Some(r) => *r,
            None => 0,
        };
        out.push(rank);
    }
    out
}

/// Whether `best` is the member of highest rank of a set among the first `seen`, the last of
/// equals.
spec fn best_of(roots: Seq<usize>, ranks: Seq<usize>, r: int, seen: int, best: Option<usize>) -> bool {
    match best {
        None => forall|j: int| 0 <= j < seen ==> #[trigger] roots[j] != r,
        Some(b) => {
            &&& b < seen
            &&& roots[b as int] == r
            &&& forall|j: int|
                0 <= j < seen && #[trigger] roots[j] == r ==> ranks[j] < ranks[b as int] || (ranks[j]
                    == ranks[b as int] && j <= b)
        },
    }
}

/// The member of highest rank of each set, held at the set's representative.
fn pick_leads(sets: &mut DisjointSets, ranks: &Vec<usize>) -> (r: Vec<Option<usize>>)
    requires
        old(sets).wf(),
        old(sets)@.len() == ranks@.len(),
    ensures
        final(sets).wf(),
        final(sets)@ == old(sets)@,
        r@.len() == ranks@.len(),
        forall|x: int|
            0 <= x < r@.len() ==> best_of(
                old(sets)@,
                ranks@,
                x,
                ranks@.len() as int,
                #[trigger] r@[x],
            ),
{
    let n: usize = ranks.len();
    let mut best: Vec<Option<usize>> = Vec::new();
    let ghost roots = sets@;
    for k in 0..n
        invariant
            best@.len() == k,
            forall|x: int| 0 <= x < k ==> (#[trigger] best@[x]) is None,
    {
        best.push(None);
    }
    for i in 0..n
        invariant
            n == ranks@.len(),
            sets.wf(),
            sets@ == roots,
            roots.len() == n,
            best@.len() == n,
            forall|x: int|
                0 <= x < n ==> best_of(roots, ranks@, x, i as int, #[trigger] best@[x]),
    {
        let root: usize = sets.find(i);
        let ghost before = best@;
        assert(best_of(roots, ranks@, root as int, i as int, best@[root as int]));
        let better: bool = match best[root] {
            None => true,
            Some(b) => ranks[b] <= ranks[i],
        };
        if better {
            best.set(root, Some(i));
        }
        assert forall|x: int| 0 <= x < n implies best_of(
            roots,
            ranks@,
            x,
            i + 1,
            #[trigger] best@[x],
        ) by {
            assert(best_of(roots, ranks@, x, i as int, before[x]));
        }
    }
    best
}

/// The member found by rank and place leads its siblings.
proof fn lead_is_found(
    names: Seq<Seq<char>>,
    values: Seq<String>,
    roots: Seq<usize>,
    ranks: Seq<usize>,
    format_rank: Map<Seq<char>, usize>,
    k: int,
    best: Option<usize>,
)
    requires
        ascending(names),
        names.len() == values.len(),
        ranks.len() == names.len(),
        0 <= k < names.len(),
        joined(names, roots, names.len() as int),
        forall|i: int|
            0 <= i < ranks.len() ==> #[trigger] ranks[i] == rank_in(format_rank, values[i]@),
        best_of(roots, ranks, roots[k] as int, names.len() as int, best),
    ensures
        best is Some,
        leads(
            texts(paired(names, values)),
            format_rank,
            names[k],
            names[best->0 as int],
        ),
        texts(paired(names, values))[names[best->0 as int]] == values[best->0 as int]@,
{
    let layers = texts(paired(names, values));
    assert(best is Some);
    let b = best->0 as int;
    paired_at(names, values, b);
    assert(roots[k] == roots[b]);
    assert forall|m: Seq<char>| #[trigger] layers.contains_key(m) && siblings(names[k], m) implies {
        ||| rank_in(format_rank, layers[m]) < rank_in(format_rank, layers[names[b]])
        ||| rank_in(format_rank, layers[m]) == rank_in(format_rank, layers[names[b]]) && !precedes(
            names[b],
            m,
        )
    } by {
        let j = names.index_of(m);
        assert(names[j] == m);
        paired_at(names, values, j);
        assert(roots[j] == roots[k]) by {
            if names[j] == names[k] {
                paired_at(names, values, k);
            }
        }
        assert(ranks[j] < ranks[b] || (ranks[j] == ranks[b] && j <= b));
        if j < b {
            assert(precedes(m, names[b]));
            if precedes(names[b], m) {
                precedes_transitive(m, names[b], m);
                precedes_irreflexive(m);
            }
        } else if j == b {
            precedes_irreflexive(m);
        }
    }
}

/// Gives every fused group the format of highest rank among its members.
///
/// `format_rank` ranks format names; a name it does not list counts as rank zero. Among
/// members of equal rank the format of the last in name order is taken. Layers of no fused
/// group keep their format.
pub fn promote_fused_siblings(
    layers: &NameMap<String>,
    format_rank: &NameMap<usize>,
) -> (out: NameMap<String>)
    ensures
        promoted(texts(layers@), format_rank@, texts(out@)),
{
    let n: usize = layers.len();
    let ghost names = layers.names();
    let ghost values = layers.values();
    let mut sets = fuse(layers);
    let ranks: Vec<usize> = ranks_of(layers, format_rank);
    let ghost roots = sets@;
    let best: Vec<Option<usize>> = pick_leads(&mut sets, &ranks);
    let mut out: NameMap<String> = NameMap::new();
    for i in 0..n
        invariant
            n == names.len(),
            n == values.len(),
            names == layers.names(),
            values == layers.values(),
            ascending(names),
            sets.wf(),
            sets@ == roots,
            joined(names, roots, n as int),
            ranks@.len() == n,
            best@.len() == n,
            forall|x: int|
                0 <= x < n ==> best_of(roots, ranks@, x, n as int, #[trigger] best@[x]),
            forall|k: int| 0 <= k < i ==> #[trigger] roots[k] < n,
            forall|k: int| 0 <= k < i ==> out@.contains_key(#[trigger] names[k]),
            forall|name: Seq<char>| #[trigger]
                out@.contains_key(name) ==> exists|k: int| 0 <= k < i && names[k] == name,
            forall|k: int|
                0 <= k < i ==> out@[#[trigger] names[k]]@
                    == values[best@[roots[k] as int]->0 as int]@,
    {
        let root: usize = sets.find(i);
        assert(best_of(roots, ranks@, root as int, n as int, best@[root as int]));
        if let Some(b) = best[root] {
            let ghost before = out@;
            out.insert(layers.name_at(i).clone(), layers.value_at(b).clone());
            assert forall|k: int| 0 <= k < i + 1 implies out@[#[trigger] names[k]]@
                == values[best@[roots[k] as int]->0 as int]@ by {
                if k < i {
                    assert(precedes(names[k], names[i as int]));
                    precedes_irreflexive(names[k]);
                    assert(out@[names[k]] == before[names[k]]);
                }
            }
        } else {
            assert(roots[i as int] != root);
        }
    }
    proof {
        let before = texts(layers@);
        let after = texts(out@);
        assert(after.dom() =~= before.dom()) by {
            assert forall|name: Seq<char>| after.contains_key(name) == before.contains_key(name) by {
                if before.contains_key(name) {
                    let k = names.index_of(name);
                    assert(names[k] == name);
                }
                if after.contains_key(name) {
                    assert(out@.contains_key(name));
                }
            }
        }
        assert forall|name: Seq<char>| before.contains_key(name) implies #[trigger] taken_by_group(
            before,
            format_rank@,
            name,
            after[name],
        ) by {
            let k = names.index_of(name);
            assert(names[k] == name);
            paired_at(names, values, k);
            let r = roots[k] as int;
            assert(joined(names, roots, n as int));
            lead_is_found(names, values, roots, ranks@, format_rank@, k, best@[r]);
        }
    }
    out
}

/// A group has one leader.
proof fn one_lead(
    layers: Map<Seq<char>, Seq<char>>,
    ranks: Map<Seq<char>, usize>,
    a: Seq<char>,
    b: Seq<char>,
    x: Seq<char>,
    y: Seq<char>,
)
    requires
        siblings(a, b),
        leads(layers, ranks, a, x),
        leads(layers, ranks, b, y),
    ensures
        x == y,
{
    assert(layers.contains_key(y) && siblings(a, y));
    assert(layers.contains_key(x) && siblings(b, x));
    precedes_total(x, y);
}

/// After promotion the members of a fused group share one format.
pub proof fn siblings_share_a_format(
    layers: Map<Seq<char>, Seq<char>>,
    ranks: Map<Seq<char>, usize>,
    out: Map<Seq<char>, Seq<char>>,
    a: Seq<char>,
    b: Seq<char>,
)
    requires
        promoted(layers, ranks, out),
        layers.contains_key(a),
        layers.contains_key(b),
        siblings(a, b),
    ensures
        out[a] == out[b],
{
    assert(taken_by_group(layers, ranks, a, out[a]));
    let x = choose|x: Seq<char>| #[trigger] leads(layers, ranks, a, x) && out[a] == layers[x];
    assert(taken_by_group(layers, ranks, b, out[b]));
    let y = choose|y: Seq<char>| #[trigger] leads(layers, ranks, b, y) && out[b] == layers[y];
    one_lead(layers, ranks, a, b, x, y);
}

/// Promotion gives each layer the highest rank that any of its siblings had, so it never lowers
/// a layer.
pub proof fn promotion_takes_the_highest_rank(
    layers: Map<Seq<char>, Seq<char>>,
    ranks: Map<Seq<char>, usize>,
    out: Map<Seq<char>, Seq<char>>,
    a: Seq<char>,
    b: Seq<char>,
)
    requires
        promoted(layers, ranks, out),
        layers.contains_key(a),
        layers.contains_key(b),
        siblings(a, b),
    ensures
        rank_in(ranks, layers[b]) <= rank_in(ranks, out[a]),
{
    assert(taken_by_group(layers, ranks, a, out[a]));
    let x = choose|x: Seq<char>| #[trigger] leads(layers, ranks, a, x) && out[a] == layers[x];
    assert(leads(layers, ranks, a, x));
}

/// Promotion hands out only formats that a sibling already had.
pub proof fn promotion_takes_a_siblings_format(
    layers: Map<Seq<char>, Seq<char>>,
    ranks: Map<Seq<char>, usize>,
    out: Map<Seq<char>, Seq<char>>,
    a: Seq<char>,
)
    requires
        promoted(layers, ranks, out),
        layers.contains_key(a),
    ensures
        exists|b: Seq<char>| #[trigger]
            layers.contains_key(b) && siblings(a, b) && out[a] == layers[b],
{
    assert(taken_by_group(layers, ranks, a, out[a]));
    let x = choose|x: Seq<char>| #[trigger] leads(layers, ranks, a, x) && out[a] == layers[x];
    assert(layers.contains_key(x) && siblings(a, x) && out[a] == layers[x]);
}

/// A layer of no fused group keeps its format.
pub proof fn promotion_leaves_lone_layers(
    layers: Map<Seq<char>, Seq<char>>,
    ranks: Map<Seq<char>, usize>,
    out: Map<Seq<char>, Seq<char>>,
    a: Seq<char>,
)
    requires
        promoted(layers, ranks, out),
        layers.contains_key(a),
        group_of(a) is None,
    ensures
        out[a] == layers[a],
{
    assert(taken_by_group(layers, ranks, a, out[a]));
    let x = choose|x: Seq<char>| #[trigger] leads(layers, ranks, a, x) && out[a] == layers[x];
    assert(siblings(a, x));
}

/// Promoting a second time changes nothing.
pub proof fn promotion_settles(
    layers: Map<Seq<char>, Seq<char>>,
    ranks: Map<Seq<char>, usize>,
    once: Map<Seq<char>, Seq<char>>,
    twice: Map<Seq<char>, Seq<char>>,
)
    requires
        promoted(layers, ranks, once),
        promoted(once, ranks, twice),
    ensures
        twice == once,
{
    assert forall|a: Seq<char>| #[trigger] once.contains_key(a) implies twice[a] == once[a] by {
        assert(taken_by_group(once, ranks, a, twice[a]));
        let x = choose|x: Seq<char>| #[trigger] leads(once, ranks, a, x) && twice[a] == once[x];
        assert(layers.contains_key(a) && layers.contains_key(x));
        siblings_share_a_format(layers, ranks, once, a, x);
    }
    assert(twice =~= once);
}

/// There is one way to promote an assignment.
pub proof fn promotion_is_unique(
    layers: Map<Seq<char>, Seq<char>>,
    ranks: Map<Seq<char>, usize>,
    a: Map<Seq<char>, Seq<char>>,
    b: Map<Seq<char>, Seq<char>>,
)
    requires
        promoted(layers, ranks, a),
        promoted(layers, ranks, b),
    ensures
        a == b,
{
    assert forall|n: Seq<char>| #[trigger] layers.contains_key(n) implies a[n] == b[n] by {
        assert(taken_by_group(layers, ranks, n, a[n]));
        assert(taken_by_group(layers, ranks, n, b[n]));
        let x = choose|x: Seq<char>| #[trigger] leads(layers, ranks, n, x) && a[n] == layers[x];
        let y = choose|y: Seq<char>| #[trigger] leads(layers, ranks, n, y) && b[n] == layers[y];
        one_lead(layers, ranks, n, n, x, y);
    }
    assert(a =~= b);
}

/// A name made of a path, a dot and a dot-free part has its last dot between the two.
proof fn last_dot_between(path: Seq<char>, name: Seq<char>)
    requires
        !name.contains('.'),
    ensures
        last_dot(path + seq!['.'] + name) == path.len(),
    decreases name.len(),
{
    let whole = path + seq!['.'] + name;
    if name.len() == 0 {
        assert(whole.last() == '.');
    } else {
        assert(name[name.len() - 1] == name.last());
        assert(whole.last() == name.last());
        assert(whole.drop_last() =~= path + seq!['.'] + name.drop_last());
        assert forall|c: char| name.drop_last().contains(c) implies name.contains(c) by {
            let k = name.drop_last().index_of(c);
            assert(name[k] == c);
        }
        last_dot_between(path, name.drop_last());
    }
}

/// Parts of a name around its last dot.
proof fn split_at_last_dot(path: Seq<char>, name: Seq<char>)
    requires
        !name.contains('.'),
    ensures
        last_dot(path + seq!['.'] + name) == path.len(),
        (path + seq!['.'] + name).skip(path.len() as int + 1) == name,
        (path + seq!['.'] + name).take(path.len() as int) == path,
{
    last_dot_between(path, name);
    let whole = path + seq!['.'] + name;
    assert(whole.skip(path.len() as int + 1) =~= name);
    assert(whole.take(path.len() as int) =~= path);
}

/// Whether `tail` is parts to follow a projection's name, none of them a fused projection.
pub open spec fn follows_projection(tail: Seq<char>) -> bool
    decreases tail.len(),
{
    let d = last_dot(tail);
    if d < 0 {
        tail.len() == 0
    } else {
        proof {
            last_dot_inside(tail);
        }
        fused_kind(tail.skip(d + 1)) is None && follows_projection(tail.take(d))
    }
}

/// The last dot of a text with a dot in its second half.
proof fn last_dot_in_tail(head: Seq<char>, tail: Seq<char>)
    requires
        last_dot(tail) >= 0,
    ensures
        last_dot(head + tail) == head.len() + last_dot(tail),
    decreases tail.len(),
{
    assert((head + tail).last() == tail.last());
    if tail.last() != '.' {
        assert((head + tail).drop_last() =~= head + tail.drop_last());
        last_dot_in_tail(head, tail.drop_last());
    }
}

/// Parts after a layer's projection make no difference to its group.
pub proof fn later_parts_keep_the_group(name: Seq<char>, tail: Seq<char>)
    requires
        follows_projection(tail),
    ensures
        group_of(name + tail) == group_of(name),
    decreases tail.len(),
{
    if tail.len() == 0 {
        assert(name + tail =~= name);
    } else {
        let d = last_dot(tail);
        last_dot_inside(tail);
        last_dot_in_tail(name, tail);
        assert((name + tail).skip(name.len() + d + 1) =~= tail.skip(d + 1));
        assert((name + tail).take(name.len() + d) =~= name + tail.take(d));
        later_parts_keep_the_group(name, tail.take(d));
    }
}

/// A fused projection is of the group of its module, whatever parts follow its name.
pub proof fn projections_join_their_module(module: Seq<char>, part: Seq<char>, tail: Seq<char>)
    requires
        fused_kind(part) is Some,
        follows_projection(tail),
    ensures
        group_of(module + seq!['.'] + part + tail) == Some((fused_kind(part)->0, module)),
{
    reveal_strlit("gate_proj");
    reveal_strlit("up_proj");
    reveal_strlit("down_proj");
    reveal_strlit("q_proj");
    reveal_strlit("k_proj");
    reveal_strlit("v_proj");
    split_at_last_dot(module, part);
    later_parts_keep_the_group(module + seq!['.'] + part, tail);
}

/// Any two of `gate_proj`, `up_proj` and `down_proj` in one module are siblings.
pub proof fn gate_up_down_are_siblings(
    module: Seq<char>,
    a: Seq<char>,
    a_tail: Seq<char>,
    b: Seq<char>,
    b_tail: Seq<char>,
)
    requires
        a == "gate_proj"@ || a == "up_proj"@ || a == "down_proj"@,
        b == "gate_proj"@ || b == "up_proj"@ || b == "down_proj"@,
        follows_projection(a_tail),
        follows_projection(b_tail),
    ensures
        siblings(module + seq!['.'] + a + a_tail, module + seq!['.'] + b + b_tail),
{
    projections_join_their_module(module, a, a_tail);
    projections_join_their_module(module, b, b_tail);
}

/// Any two of `q_proj`, `k_proj` and `v_proj` in one module are siblings.
pub proof fn qkv_are_siblings(
    module: Seq<char>,
    a: Seq<char>,
    a_tail: Seq<char>,
    b: Seq<char>,
    b_tail: Seq<char>,
)
    requires
        a == "q_proj"@ || a == "k_proj"@ || a == "v_proj"@,
        b == "q_proj"@ || b == "k_proj"@ || b == "v_proj"@,
        follows_projection(a_tail),
        follows_projection(b_tail),
    ensures
        siblings(module + seq!['.'] + a + a_tail, module + seq!['.'] + b + b_tail),
{
    reveal_strlit("gate_proj");
    reveal_strlit("up_proj");
    reveal_strlit("down_proj");
    reveal_strlit("q_proj");
    reveal_strlit("k_proj");
    reveal_strlit("v_proj");
    assert(a[0] == 'q' || a[0] == 'k' || a[0] == 'v');
    assert(b[0] == 'q' || b[0] == 'k' || b[0] == 'v');
    assert("gate_proj"@[0] == 'g' && "up_proj"@[0] == 'u' && "down_proj"@[0] == 'd');
    projections_join_their_module(module, a, a_tail);
    projections_join_their_module(module, b, b_tail);
}

/// Projections of different modules are no siblings, so different attention modules of one layer
/// are not fused.
pub proof fn siblings_sit_in_one_module(
    module: Seq<char>,
    a: Seq<char>,
    a_tail: Seq<char>,
    other: Seq<char>,
    b: Seq<char>,
    b_tail: Seq<char>,
)
    requires
        fused_kind(a) is Some,
        fused_kind(b) is Some,
        follows_projection(a_tail),
        follows_projection(b_tail),
        siblings(module + seq!['.'] + a + a_tail, other + seq!['.'] + b + b_tail),
    ensures
        module == other,
        fused_kind(a) == fused_kind(b),
{
    projections_join_their_module(module, a, a_tail);
    projections_join_their_module(other, b, b_tail);
}

/// The six projections that are fused, in their two kinds, and no others.
pub proof fn only_six_projections_are_fused(part: Seq<char>)
    ensures
        fused_kind(part) == Some(FusedKind::Qkv) <==> (part == "q_proj"@ || part == "k_proj"@
            || part == "v_proj"@),
        fused_kind(part) == Some(FusedKind::GateUpDown) <==> (part == "gate_proj"@ || part
            == "up_proj"@ || part == "down_proj"@),
{
    reveal_strlit("gate_proj");
    reveal_strlit("up_proj");
    reveal_strlit("down_proj");
    reveal_strlit("q_proj");
    reveal_strlit("k_proj");
    reveal_strlit("v_proj");
    assert("gate_proj"@[0] == 'g' && "up_proj"@[0] == 'u' && "down_proj"@[0] == 'd');
    assert("q_proj"@[0] == 'q' && "k_proj"@[0] == 'k' && "v_proj"@[0] == 'v');
}

/// Whether a part is one of the six fused projections.
spec fn is_fused(part: Seq<char>) -> bool {
    ||| part == "q_proj"@
    ||| part == "k_proj"@
    ||| part == "v_proj"@
    ||| part == "gate_proj"@
    ||| part == "up_proj"@
    ||| part == "down_proj"@
}

/// No dot stands after the last one.
proof fn no_dot_after_the_last(s: Seq<char>)
    ensures
        !s.skip(last_dot(s) + 1).contains('.'),
        last_dot(s) >= 0 ==> s[last_dot(s)] == '.',
    decreases s.len(),
{
    last_dot_inside(s);
    let rest = s.skip(last_dot(s) + 1);
    if s.len() > 0 && s.last() != '.' {
        no_dot_after_the_last(s.drop_last());
        last_dot_inside(s.drop_last());
        let d = last_dot(s);
        if rest.contains('.') {
            let k = rest.index_of('.');
            assert(rest[k] == s[d + 1 + k]);
            if d + 1 + k < s.len() - 1 {
                assert(s.drop_last().skip(d + 1)[k] == '.');
            }
        }
    }
}

/// A text is what stands before its last dot, the dot, and what stands after it.
proof fn split_and_join(s: Seq<char>)
    requires
        last_dot(s) >= 0,
    ensures
        s == s.take(last_dot(s)) + seq!['.'] + s.skip(last_dot(s) + 1),
{
    last_dot_inside(s);
    no_dot_after_the_last(s);
    let d = last_dot(s);
    assert(s =~= s.take(d) + seq!['.'] + s.skip(d + 1));
}

/// A tail of parts among which no fused projection is follows a projection.
proof fn plain_tails_follow(tail: Seq<char>)
    requires
        tail.len() == 0 || tail[0] == '.',
        forall|a: Seq<char>, part: Seq<char>, b: Seq<char>|
            tail == #[trigger] (a + seq!['.'] + part + b) && (b.len() == 0 || b[0] == '.')
                ==> !is_fused(part),
    ensures
        follows_projection(tail),
    decreases tail.len(),
{
    if tail.len() > 0 {
        has_a_dot(tail, 0);
        last_dot_inside(tail);
        let d = last_dot(tail);
        let head = tail.take(d);
        let p = tail.skip(d + 1);
        split_and_join(tail);
        let none = Seq::<char>::empty();
        assert(tail =~= head + seq!['.'] + p + none);
        assert(!is_fused(p));
        only_six_projections_are_fused(p);
        assert forall|a: Seq<char>, part: Seq<char>, b: Seq<char>|
            head == #[trigger] (a + seq!['.'] + part + b) && (b.len() == 0 || b[0]
                == '.') implies !is_fused(part) by {
            let more = b + seq!['.'] + p;
            assert(tail =~= a + seq!['.'] + part + more);
            assert(more[0] == '.');
        }
        plain_tails_follow(head);
    }
}

/// A text with a dot has a last dot.
proof fn has_a_dot(s: Seq<char>, i: int)
    requires
        0 <= i < s.len(),
        s[i] == '.',
    ensures
        last_dot(s) >= i,
    decreases s.len(),
{
    if i < s.len() - 1 && s.last() != '.' {
        has_a_dot(s.drop_last(), i);
    }
}

/// A layer whose name has a fused projection as a part, after a dot, is of the group of the module
/// before it, where no part after it is a fused projection too.
pub proof fn projections_group_by_module(module: Seq<char>, part: Seq<char>, tail: Seq<char>)
    requires
        tail.len() == 0 || tail[0] == '.',
        forall|a: Seq<char>, p: Seq<char>, b: Seq<char>|
            tail == #[trigger] (a + seq!['.'] + p + b) && (b.len() == 0 || b[0] == '.') ==> p
                != "q_proj"@ && p != "k_proj"@ && p != "v_proj"@ && p != "gate_proj"@ && p
                != "up_proj"@ && p != "down_proj"@,
    ensures
        part == "q_proj"@ || part == "k_proj"@ || part == "v_proj"@ ==> group_of(
            module + seq!['.'] + part + tail,
        ) == Some((FusedKind::Qkv, module)),
        part == "gate_proj"@ || part == "up_proj"@ || part == "down_proj"@ ==> group_of(
            module + seq!['.'] + part + tail,
        ) == Some((FusedKind::GateUpDown, module)),
{
    plain_tails_follow(tail);
    only_six_projections_are_fused(part);
    if fused_kind(part) is Some {
        projections_join_their_module(module, part, tail);
    }
}

/// A layer of a fused group has one of the group's projections as a part of its name, right after
/// the path of the module.
pub proof fn groups_come_from_a_projection(name: Seq<char>, kind: FusedKind, module: Seq<char>)
    requires
        group_of(name) == Some((kind, module)),
    ensures
        exists|part: Seq<char>, tail: Seq<char>|
            {
                &&& name == #[trigger] (module + seq!['.'] + part + tail)
                &&& tail.len() == 0 || tail[0] == '.'
                &&& match kind {
                    FusedKind::Qkv => part == "q_proj"@ || part == "k_proj"@ || part == "v_proj"@,
                    FusedKind::GateUpDown => part == "gate_proj"@ || part == "up_proj"@ || part
                        == "down_proj"@,
                }
            },
    decreases name.len(),
{
    last_dot_inside(name);
    let d = last_dot(name);
    let head = name.take(d);
    let p = name.skip(d + 1);
    split_and_join(name);
    only_six_projections_are_fused(p);
    if fused_kind(p) is Some {
        let none = Seq::<char>::empty();
        assert(name =~= module + seq!['.'] + p + none);
    } else {
        groups_come_from_a_projection(head, kind, module);
        let (part, tail) = choose|part: Seq<char>, tail: Seq<char>|
            {
                &&& head == #[trigger] (module + seq!['.'] + part + tail)
                &&& tail.len() == 0 || tail[0] == '.'
                &&& match kind {
                    FusedKind::Qkv => part == "q_proj"@ || part == "k_proj"@ || part == "v_proj"@,
                    FusedKind::GateUpDown => part == "gate_proj"@ || part == "up_proj"@ || part
                        == "down_proj"@,
                }
            };
        let more = tail + seq!['.'] + p;
        assert(name =~= module + seq!['.'] + part + more);
        assert(more[0] == '.');
    }
}

/// A layer none of whose name's parts, after a dot, is a fused projection keeps its format.
pub proof fn promotion_leaves_other_layers(
    layers: Map<Seq<char>, Seq<char>>,
    ranks: Map<Seq<char>, usize>,
    out: Map<Seq<char>, Seq<char>>,
    name: Seq<char>,
)
    requires
        promoted(layers, ranks, out),
        layers.contains_key(name),
        forall|a: Seq<char>, p: Seq<char>, b: Seq<char>|
            name == #[trigger] (a + seq!['.'] + p + b) && (b.len() == 0 || b[0] == '.') ==> p
                != "q_proj"@ && p != "k_proj"@ && p != "v_proj"@ && p != "gate_proj"@ && p
                != "up_proj"@ && p != "down_proj"@,
    ensures
        out.contains_key(name),
        out[name] == layers[name],
{
    if let Some((kind, module)) = group_of(name) {
        groups_come_from_a_projection(name, kind, module);
    }
    promotion_leaves_lone_layers(layers, ranks, out, name);
}

/// Layers are siblings where they are the same or have one group, whichever is named first.
pub proof fn siblings_are_mutual(a: Seq<char>, b: Seq<char>, c: Seq<char>)
    ensures
        siblings(a, a),
        siblings(a, b) == siblings(b, a),
        siblings(a, b) && siblings(b, c) ==> siblings(a, c),
        a != b && (group_of(a) is None || group_of(a) != group_of(b)) ==> !siblings(a, b),
        group_of(a) is Some && group_of(a) == group_of(b) ==> siblings(a, b),
{
}

/// Promotion names the same layers.
pub proof fn promotion_keeps_the_names(
    layers: Map<Seq<char>, Seq<char>>,
    ranks: Map<Seq<char>, usize>,
    out: Map<Seq<char>, Seq<char>>,
    name: Seq<char>,
)
    requires
        promoted(layers, ranks, out),
    ensures
        out.contains_key(name) <==> layers.contains_key(name),
{
    assert(out.dom().contains(name) <==> layers.dom().contains(name));
}

/// A group takes the format of the sibling that outranks all others, a format without a rank
/// counting as rank zero, and of siblings of equal rank the one whose name stands last.
pub proof fn the_highest_sibling_leads(
    layers: Map<Seq<char>, Seq<char>>,
    ranks: Map<Seq<char>, usize>,
    out: Map<Seq<char>, Seq<char>>,
    a: Seq<char>,
    b: Seq<char>,
)
    requires
        promoted(layers, ranks, out),
        layers.contains_key(a),
        layers.contains_key(b),
        siblings(a, b),
        forall|m: Seq<char>| #[trigger]
            layers.contains_key(m) && siblings(a, m) && m != b ==> {
                let rank = |f: Seq<char>|
                    if ranks.contains_key(f) {
                        ranks[f] as int
                    } else {
                        0int
                    };
                rank(layers[m]) < rank(layers[b]) || (rank(layers[m]) == rank(layers[b])
                    && precedes(m, b))
            },
    ensures
        out[a] == layers[b],
{
    assert(taken_by_group(layers, ranks, a, out[a]));
    let x = choose|x: Seq<char>| #[trigger] leads(layers, ranks, a, x) && out[a] == layers[x];
    assert(layers.contains_key(b) && siblings(a, b));
    assert(layers.contains_key(x) && siblings(a, x));
}

/// The texts of a map are those of its values, name by name.
pub proof fn texts_go_by_name(m: Map<Seq<char>, String>, name: Seq<char>)
    ensures
        texts(m).contains_key(name) <==> m.contains_key(name),
        m.contains_key(name) ==> texts(m)[name] == m[name]@,
{
}

} // verus!
