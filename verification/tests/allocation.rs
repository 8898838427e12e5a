use std::collections::BTreeMap;

use prismaquant::assignment::{
    allocate_formats, allocate_greedy, allocate_knapsack, allocate_with_promotion, export_payload,
    PrismaAssignment,
};
use prismaquant::bpp::TargetBpp;
use prismaquant::format::AllocFormat;
use prismaquant::greedy::{cheapest_format, greedy_formats, upgrade_ladder};
use prismaquant::knapsack::knapsack_picks;
use prismaquant::ranking::rank_by_score;
use prismaquant::sensitivity::{
    compute_fisher_weighted, compute_sensitivity_from_weights, fisher_available, sum_params,
    LayerSensitivity, WeightNorm,
};

const ALL: [AllocFormat; 3] = [AllocFormat::Nvfp4, AllocFormat::Mxfp8, AllocFormat::Bf16];

fn fixed(x: f64) -> i64 {
    (x * 65536.0).round() as i64
}

fn target(bits: u64) -> TargetBpp {
    TargetBpp { bits, params: 1 }
}

fn achieved(a: &PrismaAssignment) -> f64 {
    a.achieved_bpp.bits as f64 / a.achieved_bpp.params as f64
}

fn format_of(a: &PrismaAssignment, name: &str) -> Option<String> {
    a.layers.get(name).cloned()
}

fn make_layers(names: &[&str], scores: &[f64], params: &[usize]) -> Vec<LayerSensitivity> {
    names
        .iter()
        .zip(scores.iter())
        .zip(params.iter())
        .map(|((&name, &score), &n_params)| LayerSensitivity {
            name: name.to_string(),
            score: fixed(score),
            fisher_trace: 0,
            n_params,
        })
        .collect()
}

fn four_layers() -> Vec<LayerSensitivity> {
    make_layers(
        &["l0.q_proj", "l0.k_proj", "l0.o_proj", "l1.q_proj"],
        &[10.0, 8.0, 5.0, 1.0],
        &[1000, 1000, 1000, 1000],
    )
}

#[test]
fn greedy_allocator_meets_budget() {
    let layers = four_layers();
    let formats = vec![AllocFormat::Nvfp4, AllocFormat::Mxfp8, AllocFormat::Bf16];
    let result = allocate_greedy(&layers, &target(6), &formats);

    assert!(achieved(&result) <= 7.0);
    assert_eq!(format_of(&result, "l0.q_proj").as_deref(), Some("BF16"));
    assert_eq!(format_of(&result, "l1.q_proj").as_deref(), Some("NVFP4"));
}

#[test]
fn knapsack_meets_budget() {
    let layers = four_layers();
    let formats = vec![AllocFormat::Nvfp4, AllocFormat::Mxfp8, AllocFormat::Bf16];
    let result = allocate_knapsack(&layers, &target(6), &formats);

    assert!(achieved(&result) <= 7.0);
    assert!(result.layers.len() != 0);
}

#[test]
fn empty_layers_returns_default() {
    let result = allocate_greedy(&[], &target(5), &[AllocFormat::Nvfp4, AllocFormat::Bf16]);
    assert!(result.layers.len() == 0);
    assert!((achieved(&result) - 16.0).abs() < 0.01);
}

fn weight_norm(name: &str, w: &[f32]) -> WeightNorm {
    let frob2: f64 = w.iter().map(|&x| (x as f64) * (x as f64)).sum();
    let n = w.len();
    WeightNorm {
        name: name.to_string(),
        norm: fixed(frob2.sqrt() / (n as f64).sqrt().max(1.0)),
        n_params: n,
    }
}

#[test]
fn sensitivity_sorting() {
    let weights: BTreeMap<String, Vec<f32>> = [
        ("l0".to_string(), vec![1.0f32; 100]),
        ("l1".to_string(), vec![2.0f32; 100]),
        ("l2".to_string(), vec![0.5f32; 100]),
    ]
    .into();
    let norms: Vec<WeightNorm> = weights.iter().map(|(name, w)| weight_norm(name, w)).collect();
    let scores = compute_sensitivity_from_weights(&norms);
    assert_eq!(scores[0].name, "l1");
    assert_eq!(scores[1].name, "l0");
    assert_eq!(scores[2].name, "l2");
}

fn blend(layers: &[(f64, f64)], alpha: f64) -> Vec<i64> {
    let max_score = layers.iter().map(|l| l.0).fold(0.0f64, f64::max).max(1.0);
    let max_fisher = layers.iter().map(|l| l.1).fold(0.0f64, f64::max).max(1.0);
    layers
        .iter()
        .map(|l| fixed(alpha * (l.1 / max_fisher) + (1.0 - alpha) * (l.0 / max_score)))
        .collect()
}

#[test]
fn fisher_weighted_blend() {
    let mut layers = make_layers(&["l0.q_proj", "l1.q_proj"], &[5.0, 1.0], &[1000, 1000]);
    layers[0].fisher_trace = fixed(100.0);
    layers[1].fisher_trace = fixed(10.0);
    let blended = compute_fisher_weighted(&layers, &blend(&[(5.0, 100.0), (1.0, 10.0)], 0.7));
    assert!(blended[0].score >= blended[1].score);
}

#[test]
fn sensitivities_keep_counts_and_order_of_equals() {
    let norms = vec![
        WeightNorm { name: "a".to_string(), norm: 3, n_params: 7 },
        WeightNorm { name: "b".to_string(), norm: 9, n_params: 8 },
        WeightNorm { name: "c".to_string(), norm: 3, n_params: 9 },
        WeightNorm { name: "d".to_string(), norm: -1, n_params: 0 },
    ];
    let out = compute_sensitivity_from_weights(&norms);
    let names: Vec<&str> = out.iter().map(|l| l.name.as_str()).collect();
    assert_eq!(names, vec!["b", "a", "c", "d"]);
    assert_eq!(out[1].score, 3);
    assert_eq!(out[1].n_params, 7);
    assert_eq!(out[1].fisher_trace, 0);
    assert_eq!(sum_params(&out), 24);
}

#[test]
fn blended_scores_replace_and_reorder() {
    let mut layers = make_layers(&["a", "b", "c"], &[5.0, 1.0, 2.0], &[1, 2, 3]);
    layers[1].fisher_trace = 4;
    let out = compute_fisher_weighted(&layers, &[10, 30, 10]);
    let names: Vec<&str> = out.iter().map(|l| l.name.as_str()).collect();
    assert_eq!(names, vec!["b", "a", "c"]);
    assert_eq!(out[0].score, 30);
    assert_eq!(out[0].fisher_trace, 4);
    assert_eq!(out[2].n_params, 3);
}

#[test]
fn without_traces_nothing_is_blended() {
    let mut layers = make_layers(&["a", "b"], &[1.0, 5.0], &[1, 2]);
    layers[0].fisher_trace = -3;
    assert!(!fisher_available(&layers));
    let out = compute_fisher_weighted(&layers, &[10, 30]);
    assert_eq!(out[0].name, "a");
    assert_eq!(out[0].score, fixed(1.0));
    assert_eq!(out[0].fisher_trace, -3);
    assert_eq!(out[1].name, "b");
}

#[test]
fn ranking_is_stable_and_descending() {
    assert_eq!(rank_by_score(&[4, 9, 4, -2, 9, 7]), vec![1, 4, 5, 0, 2, 3]);
    assert_eq!(rank_by_score(&[]), Vec::<usize>::new());
}

#[test]
fn format_costs_and_ranks() {
    assert_eq!(AllocFormat::Nvfp4.effective_bpp(), 4);
    assert_eq!(AllocFormat::Mxfp8.effective_bpp(), 8);
    assert_eq!(AllocFormat::Bf16.effective_bpp(), 16);
    assert_eq!(AllocFormat::Nvfp4.rank(), 0);
    assert_eq!(AllocFormat::Mxfp8.rank(), 1);
    assert_eq!(AllocFormat::Bf16.rank(), 2);
}

#[test]
fn format_names_read_back_in_any_case() {
    for f in ALL {
        assert_eq!(AllocFormat::parse_from_str(&f.name()), Some(f));
        assert_eq!(AllocFormat::parse_from_str(&f.name().to_lowercase()), Some(f));
    }
    assert_eq!(AllocFormat::parse_from_str("MxFp8_E4m3"), Some(AllocFormat::Mxfp8));
    assert_eq!(AllocFormat::parse_from_str("BFloat16"), Some(AllocFormat::Bf16));
    assert_eq!(AllocFormat::parse_from_str("fp4"), None);
    assert_eq!(AllocFormat::parse_from_str(""), None);
}

#[test]
fn greedy_stops_as_soon_as_the_target_is_met() {
    let layers = four_layers();
    let (formats, bits) = greedy_formats(&layers, &target(5), &ALL);
    assert_eq!(
        formats,
        vec![AllocFormat::Mxfp8, AllocFormat::Nvfp4, AllocFormat::Nvfp4, AllocFormat::Nvfp4]
    );
    assert_eq!(bits, 20000);

    let (formats, bits) = greedy_formats(&layers, &target(4), &ALL);
    assert_eq!(formats, vec![AllocFormat::Nvfp4; 4]);
    assert_eq!(bits, 16000);

    let (formats, bits) = greedy_formats(&layers, &TargetBpp { bits: 29, params: 4 }, &ALL);
    assert_eq!(
        formats,
        vec![AllocFormat::Bf16, AllocFormat::Mxfp8, AllocFormat::Nvfp4, AllocFormat::Nvfp4]
    );
    assert_eq!(bits, 32000);
}

#[test]
fn greedy_tops_out_below_an_unreachable_target() {
    let (formats, bits) = greedy_formats(&four_layers(), &target(99), &ALL);
    assert_eq!(formats, vec![AllocFormat::Bf16; 4]);
    assert_eq!(bits, 64000);
}

#[test]
fn greedy_leaves_layers_without_parameters() {
    let layers = make_layers(&["a", "b"], &[9.0, 1.0], &[0, 10]);
    let (formats, bits) = greedy_formats(&layers, &target(8), &ALL);
    assert_eq!(formats, vec![AllocFormat::Nvfp4, AllocFormat::Mxfp8]);
    assert_eq!(bits, 80);
}

#[test]
fn greedy_starts_at_the_cheapest_listed_format() {
    let mixed = [AllocFormat::Bf16, AllocFormat::Mxfp8, AllocFormat::Nvfp4];
    assert_eq!(cheapest_format(&mixed), AllocFormat::Nvfp4);
    assert_eq!(upgrade_ladder(&mixed), vec![AllocFormat::Nvfp4, AllocFormat::Bf16]);
    assert_eq!(upgrade_ladder(&ALL), ALL.to_vec());
    assert_eq!(upgrade_ladder(&[AllocFormat::Mxfp8]), vec![AllocFormat::Mxfp8]);
}

#[test]
fn ranking_and_greedy_go_by_order_alone() {
    assert_eq!(rank_by_score(&[4, 9, 4, -2]), rank_by_score(&[0, 1, 0, -900]));

    let layers = four_layers();
    let mut others = four_layers();
    for (layer, score) in others.iter_mut().zip([900i64, 3, 2, -5]) {
        layer.score = score;
    }
    for bits in 4..17 {
        assert_eq!(
            greedy_formats(&layers, &target(bits), &ALL),
            greedy_formats(&others, &target(bits), &ALL)
        );
    }
}

#[test]
fn knapsack_picks_alike_in_any_unit() {
    let layers = make_layers(&["a", "b", "c", "d"], &[3.0, 2.0, -1.0, 0.0], &[3, 5, 2, 4]);
    let mut finer = make_layers(&["a", "b", "c", "d"], &[3.0, 2.0, -1.0, 0.0], &[3, 5, 2, 4]);
    for layer in finer.iter_mut() {
        layer.score *= 7;
    }
    for budget in 0..230usize {
        assert_eq!(
            knapsack_picks(&layers, &ALL, budget),
            knapsack_picks(&finer, &ALL, budget)
        );
    }
}

#[test]
fn assignment_keeps_the_last_of_equal_names() {
    let layers = make_layers(&["same", "same"], &[9.0, 1.0], &[10, 30]);
    let r = allocate_greedy(&layers, &target(5), &ALL);
    assert_eq!(r.layers.len(), 1);
    assert_eq!(format_of(&r, "same").as_deref(), Some("NVFP4"));
    assert_eq!(
        r.per_layer_params,
        vec![("same".to_string(), 10), ("same".to_string(), 30)]
    );
    assert_eq!(r.achieved_bpp.params, 40);
    assert_eq!(r.achieved_bpp.bits, 200);
    assert_eq!(r.target_bpp.bits, 5);
}

#[test]
fn other_name_allocates_greedily() {
    let layers = four_layers();
    let a = allocate_formats(&layers, &target(6), &ALL);
    let b = allocate_greedy(&layers, &target(6), &ALL);
    for l in &layers {
        assert_eq!(format_of(&a, &l.name), format_of(&b, &l.name));
    }
    assert_eq!(a.achieved_bpp.bits, b.achieved_bpp.bits);
}

#[test]
fn no_formats_is_like_no_layers() {
    let r = allocate_knapsack(&four_layers(), &target(5), &[]);
    assert_eq!(r.layers.len(), 0);
    assert_eq!(r.achieved_bpp.bits, 16);
    assert_eq!(r.achieved_bpp.params, 1);
    assert!(r.per_layer_params.is_empty());

    let r = allocate_with_promotion(&four_layers(), &target(5), &[]);
    assert_eq!(r.layers.len(), 0);
    assert_eq!(r.achieved_bpp.bits, 0);
    assert_eq!(r.achieved_bpp.params, 1);
}

#[test]
fn knapsack_spends_the_budget_where_it_counts() {
    let r = allocate_knapsack(&four_layers(), &target(6), &ALL);
    assert_eq!(format_of(&r, "l0.q_proj").as_deref(), Some("MXFP8"));
    assert_eq!(format_of(&r, "l0.k_proj").as_deref(), Some("MXFP8"));
    assert_eq!(format_of(&r, "l0.o_proj").as_deref(), Some("NVFP4"));
    assert_eq!(format_of(&r, "l1.q_proj").as_deref(), Some("NVFP4"));
    assert_eq!(r.achieved_bpp.bits, 24000);
    assert_eq!(r.achieved_bpp.params, 4000);
}

#[test]
fn knapsack_finds_the_lowest_loss() {
    let scores = [7i64, 3, 11, 0, 5];
    let params = [3usize, 1, 4, 2, 2];
    let layers: Vec<LayerSensitivity> = (0..5)
        .map(|i| LayerSensitivity {
            name: format!("l{i}"),
            score: scores[i],
            fisher_trace: 0,
            n_params: params[i],
        })
        .collect();
    let measure = |picks: &[usize]| {
        let mut bits = 0u64;
        let mut loss = 0i64;
        for i in 0..5 {
            let bpp = ALL[picks[i]].effective_bpp();
            bits += params[i] as u64 * bpp;
            loss += scores[i] * (16 - bpp as i64);
        }
        (bits, loss)
    };
    for budget in 48..200usize {
        let picks = knapsack_picks(&layers, &ALL, budget);
        let (bits, loss) = measure(&picks);
        assert!(bits <= budget as u64);
        for code in 0..243usize {
            let other: Vec<usize> = (0..5).map(|i| code / 3usize.pow(i as u32) % 3).collect();
            let (other_bits, other_loss) = measure(&other);
            if other_bits > budget as u64 {
                continue;
            }
            assert!(loss <= other_loss);
            if loss == other_loss {
                assert!(bits >= other_bits);
                if bits == other_bits {
                    let a: Vec<usize> = picks.iter().rev().copied().collect();
                    let b: Vec<usize> = other.iter().rev().copied().collect();
                    assert!(a <= b);
                }
            }
        }
    }
}

#[test]
fn knapsack_loses_no_more_than_greedy_within_budget() {
    let layers = make_layers(&["a", "b", "c"], &[3.0, 2.0, 2.0], &[10, 10, 10]);
    let t = target(8);
    let g = allocate_greedy(&layers, &t, &ALL);
    let k = allocate_knapsack(&layers, &t, &ALL);
    assert!(g.achieved_bpp.bits <= 240);
    assert!(k.achieved_bpp.bits <= 240);
    let loss = |r: &PrismaAssignment| -> i64 {
        layers
            .iter()
            .map(|l| {
                let f = AllocFormat::parse_from_str(&format_of(r, &l.name).unwrap()).unwrap();
                l.score * (16 - f.effective_bpp() as i64)
            })
            .sum()
    };
    assert!(loss(&k) <= loss(&g));
}

#[test]
fn knapsack_falls_back_where_nothing_fits() {
    let layers = make_layers(&["z", "a", "b"], &[2.0, 3.0, 1.0], &[0, 10, 10]);
    assert_eq!(knapsack_picks(&layers, &ALL, 10), vec![2, 0, 0]);
    let r = allocate_knapsack(&layers, &target(1), &ALL);
    assert_eq!(format_of(&r, "z").as_deref(), Some("BF16"));
    assert_eq!(format_of(&r, "a").as_deref(), Some("NVFP4"));
    assert_eq!(r.achieved_bpp.bits, 80);
}

#[test]
fn promotion_follows_allocation() {
    let layers = make_layers(
        &["m.0.self_attn.q_proj", "m.0.self_attn.k_proj", "m.0.self_attn.o_proj"],
        &[9.0, 1.0, 2.0],
        &[100, 50, 50],
    );
    let r = allocate_with_promotion(&layers, &target(6), &ALL);
    assert_eq!(format_of(&r, "m.0.self_attn.q_proj").as_deref(), Some("MXFP8"));
    assert_eq!(format_of(&r, "m.0.self_attn.k_proj").as_deref(), Some("MXFP8"));
    assert_eq!(format_of(&r, "m.0.self_attn.o_proj").as_deref(), Some("NVFP4"));
    assert_eq!(r.achieved_bpp.bits, 1400);
    assert_eq!(r.achieved_bpp.params, 200);
    assert_eq!(r.target_bpp.bits, 6);
    assert_eq!(r.per_layer_params.len(), 3);
}

#[test]
fn promoted_bits_are_summed_over_the_layers() {
    let layers = make_layers(
        &["l1.up_proj", "l0.q_proj", "l0.k_proj", "l0.o_proj", "l1.down_proj"],
        &[4.0, 10.0, 1.0, 5.0, 2.0],
        &[7, 10, 30, 5, 11],
    );
    for bits in 4..17 {
        let plain = allocate_greedy(&layers, &target(bits), &ALL);
        let r = allocate_with_promotion(&layers, &target(bits), &ALL);
        let sum: u128 = layers
            .iter()
            .map(|l| {
                let f = AllocFormat::parse_from_str(&format_of(&r, &l.name).unwrap()).unwrap();
                l.n_params as u128 * f.effective_bpp() as u128
            })
            .sum();
        assert_eq!(r.achieved_bpp.bits, sum);
        assert_eq!(r.achieved_bpp.params, plain.achieved_bpp.params);
        assert!(r.achieved_bpp.bits >= plain.achieved_bpp.bits);
        assert_eq!(format_of(&r, "l0.q_proj"), format_of(&r, "l0.k_proj"));
        assert_eq!(format_of(&r, "l1.up_proj"), format_of(&r, "l1.down_proj"));
    }
    let r = allocate_with_promotion(&layers, &target(5), &ALL);
    assert_eq!(r.achieved_bpp.bits, 732);
    assert_eq!(format_of(&r, "l0.k_proj").as_deref(), Some("BF16"));
}

#[test]
fn promotion_goes_by_precision_not_by_place_in_the_list() {
    let layers = make_layers(&["m.0.mlp.up_proj", "m.0.mlp.down_proj"], &[9.0, 1.0], &[10, 10]);
    let listed = [AllocFormat::Bf16, AllocFormat::Nvfp4];
    let r = allocate_with_promotion(&layers, &target(8), &listed);
    assert_eq!(format_of(&r, "m.0.mlp.up_proj").as_deref(), Some("BF16"));
    assert_eq!(format_of(&r, "m.0.mlp.down_proj").as_deref(), Some("BF16"));
    assert_eq!(r.achieved_bpp.bits, 320);
}

#[test]
fn export_lists_everything() {
    let r = allocate_greedy(&four_layers(), &target(6), &ALL);
    let p = export_payload(&r);
    assert_eq!(p.total_params, 4000);
    assert_eq!(p.num_layers, 4);
    assert_eq!(p.layer_params, r.per_layer_params);
    assert_eq!(p.layers.get("l0.q_proj").map(|s| s.as_str()), Some("BF16"));
    assert_eq!(p.achieved_bpp.bits, r.achieved_bpp.bits);
    assert_eq!(p.target_bpp.bits, 6);
}

#[test]
fn targets_round_the_right_way() {
    let t = TargetBpp { bits: 19, params: 4 };
    assert_eq!(t.bits_to_meet(3), 15);
    assert_eq!(t.bit_budget(3), 14);
    assert_eq!(t.bits_to_meet(4), 19);
    assert_eq!(t.bit_budget(4), 19);
}
