use prismaquant::disjoint::DisjointSets;
use prismaquant::names::NameMap;
use prismaquant::promote::{fused_group, promote_fused_siblings, FusedKind};

fn map(entries: &[(&str, &str)]) -> NameMap<String> {
    let mut m: NameMap<String> = NameMap::new();
    for (name, format) in entries {
        m.insert(name.to_string(), format.to_string());
    }
    m
}

fn ranks() -> NameMap<usize> {
    let mut rank: NameMap<usize> = NameMap::new();
    rank.insert("NVFP4".to_string(), 0);
    rank.insert("MXFP8".to_string(), 1);
    rank.insert("BF16".to_string(), 2);
    rank
}

#[test]
fn fused_sibling_promotion() {
    let mut layers: NameMap<String> = NameMap::new();
    layers.insert("model.layers.0.self_attn.q_proj".to_string(), "BF16".to_string());
    layers.insert("model.layers.0.self_attn.k_proj".to_string(), "NVFP4".to_string());
    layers.insert("model.layers.0.self_attn.v_proj".to_string(), "NVFP4".to_string());
    layers.insert("model.layers.0.mlp.gate_proj".to_string(), "BF16".to_string());
    layers.insert("model.layers.0.mlp.up_proj".to_string(), "MXFP8".to_string());
    layers.insert("model.layers.0.mlp.down_proj".to_string(), "NVFP4".to_string());

    let mut rank: NameMap<usize> = NameMap::new();
    rank.insert("NVFP4".to_string(), 0);
    rank.insert("MXFP8".to_string(), 1);
    rank.insert("BF16".to_string(), 2);

    let promoted = promote_fused_siblings(&layers, &rank);

    assert_eq!(
        promoted.get("model.layers.0.self_attn.q_proj").map(|s| s.as_str()),
        Some("BF16")
    );
    assert_eq!(
        promoted.get("model.layers.0.self_attn.k_proj").map(|s| s.as_str()),
        Some("BF16")
    );
    assert_eq!(
        promoted.get("model.layers.0.self_attn.v_proj").map(|s| s.as_str()),
        Some("BF16")
    );
    assert_eq!(
        promoted.get("model.layers.0.mlp.gate_proj").map(|s| s.as_str()),
        Some("BF16")
    );
    assert_eq!(
        promoted.get("model.layers.0.mlp.up_proj").map(|s| s.as_str()),
        Some("BF16")
    );
    assert_eq!(
        promoted.get("model.layers.0.mlp.down_proj").map(|s| s.as_str()),
        Some("BF16")
    );
}

#[test]
fn groups_follow_the_path() {
    assert_eq!(
        fused_group("m.0.self_attn.k_proj"),
        Some((FusedKind::Qkv, "m.0.self_attn".to_string()))
    );
    assert_eq!(
        fused_group("m.0.mlp.up_proj"),
        Some((FusedKind::GateUpDown, "m.0.mlp".to_string()))
    );
    assert_eq!(fused_group("mlp.down_proj"), Some((FusedKind::GateUpDown, "mlp".to_string())));
    assert_eq!(fused_group("l0.q_proj"), Some((FusedKind::Qkv, "l0".to_string())));
    assert_eq!(fused_group("a.b.q_proj"), Some((FusedKind::Qkv, "a.b".to_string())));
    assert_eq!(fused_group("..q_proj"), Some((FusedKind::Qkv, ".".to_string())));
    assert_eq!(fused_group("q_proj"), None);
    assert_eq!(fused_group("q_proj.weight"), None);
    assert_eq!(
        fused_group("m.self_attn.q_proj.weight"),
        Some((FusedKind::Qkv, "m.self_attn".to_string()))
    );
    assert_eq!(
        fused_group("m.mlp.up_proj.lora.A"),
        Some((FusedKind::GateUpDown, "m.mlp".to_string()))
    );
    assert_eq!(
        fused_group("m.q_proj.x.up_proj"),
        Some((FusedKind::GateUpDown, "m.q_proj.x".to_string()))
    );
    assert_eq!(fused_group("m.o_proj.weight"), None);
    assert_eq!(fused_group("m.my_q_proj.weight"), None);
    assert_eq!(fused_group("m.0.self_attn.o_proj"), None);
    assert_eq!(fused_group("gate_proj"), None);
    assert_eq!(fused_group(".gate_proj"), Some((FusedKind::GateUpDown, "".to_string())));
    assert_eq!(fused_group(""), None);
}

#[test]
fn short_names_are_fused_too() {
    let layers = map(&[("l0.q_proj", "BF16"), ("l0.k_proj", "NVFP4")]);
    let out = promote_fused_siblings(&layers, &ranks());
    assert_eq!(out.len(), 2);
    assert_eq!(out.get("l0.q_proj").unwrap(), "BF16");
    assert_eq!(out.get("l0.k_proj").unwrap(), "BF16");
}

#[test]
fn stored_tensor_names_are_fused_too() {
    let layers = map(&[
        ("m.self_attn.q_proj.weight", "BF16"),
        ("m.self_attn.k_proj.weight", "NVFP4"),
        ("m.self_attn.o_proj.weight", "NVFP4"),
        ("m.mlp.gate_proj.weight", "NVFP4"),
        ("m.mlp.down_proj", "MXFP8"),
    ]);
    let out = promote_fused_siblings(&layers, &ranks());
    assert_eq!(out.len(), 5);
    assert_eq!(out.get("m.self_attn.q_proj.weight").unwrap(), "BF16");
    assert_eq!(out.get("m.self_attn.k_proj.weight").unwrap(), "BF16");
    assert_eq!(out.get("m.self_attn.o_proj.weight").unwrap(), "NVFP4");
    assert_eq!(out.get("m.mlp.gate_proj.weight").unwrap(), "MXFP8");
    assert_eq!(out.get("m.mlp.down_proj").unwrap(), "MXFP8");
}

#[test]
fn attention_modules_of_one_layer_stay_separate() {
    let layers = map(&[
        ("model.layers.0.self_attn.q_proj", "BF16"),
        ("model.layers.0.cross_attn.k_proj", "NVFP4"),
    ]);
    let out = promote_fused_siblings(&layers, &ranks());
    assert_eq!(out.len(), 2);
    assert_eq!(out.get("model.layers.0.self_attn.q_proj").unwrap(), "BF16");
    assert_eq!(out.get("model.layers.0.cross_attn.k_proj").unwrap(), "NVFP4");
}

#[test]
fn separate_groups_stay_separate() {
    let layers = map(&[
        ("m.0.self_attn.q_proj", "BF16"),
        ("m.1.self_attn.q_proj", "NVFP4"),
        ("m.1.self_attn.v_proj", "MXFP8"),
        ("m.0.self_attn.o_proj", "NVFP4"),
        ("m.0.mlp.up_proj", "NVFP4"),
        ("m.0.mlp.experts.3.up_proj", "MXFP8"),
        ("m.0.mlp.experts.3.down_proj", "NVFP4"),
    ]);
    let out = promote_fused_siblings(&layers, &ranks());
    assert_eq!(out.len(), 7);
    assert_eq!(out.get("m.0.self_attn.q_proj").unwrap(), "BF16");
    assert_eq!(out.get("m.1.self_attn.q_proj").unwrap(), "MXFP8");
    assert_eq!(out.get("m.1.self_attn.v_proj").unwrap(), "MXFP8");
    assert_eq!(out.get("m.0.self_attn.o_proj").unwrap(), "NVFP4");
    assert_eq!(out.get("m.0.mlp.up_proj").unwrap(), "NVFP4");
    assert_eq!(out.get("m.0.mlp.experts.3.down_proj").unwrap(), "MXFP8");
}

#[test]
fn unranked_formats_count_as_lowest_and_ties_go_to_the_last_name() {
    let layers = map(&[
        ("m.0.a.k_proj", "ODD"),
        ("m.0.a.q_proj", "NVFP4"),
        ("m.0.a.v_proj", "OTHER"),
        ("m.1.mlp.down_proj", "ODD"),
        ("m.1.mlp.up_proj", "MXFP8"),
    ]);
    let out = promote_fused_siblings(&layers, &ranks());
    assert_eq!(out.get("m.0.a.k_proj").unwrap(), "OTHER");
    assert_eq!(out.get("m.0.a.q_proj").unwrap(), "OTHER");
    assert_eq!(out.get("m.0.a.v_proj").unwrap(), "OTHER");
    assert_eq!(out.get("m.1.mlp.down_proj").unwrap(), "MXFP8");
}

#[test]
fn promoting_twice_changes_nothing() {
    let layers = map(&[
        ("m.0.mlp.down_proj", "NVFP4"),
        ("m.0.mlp.gate_proj", "BF16"),
        ("m.0.mlp.up_proj", "MXFP8"),
        ("lm_head", "NVFP4"),
    ]);
    let once = promote_fused_siblings(&layers, &ranks());
    let twice = promote_fused_siblings(&once, &ranks());
    for i in 0..once.len() {
        assert_eq!(once.name_at(i), twice.name_at(i));
        assert_eq!(once.value_at(i), twice.value_at(i));
    }
}

#[test]
fn names_list_in_order_and_replace() {
    let mut m: NameMap<usize> = NameMap::new();
    for (i, name) in ["b", "a", "ab", "", "é", "z", "a"].iter().enumerate() {
        m.insert(name.to_string(), i);
    }
    let names: Vec<&str> = (0..m.len()).map(|i| m.name_at(i).as_str()).collect();
    assert_eq!(names, vec!["", "a", "ab", "b", "z", "é"]);
    assert_eq!(m.get("a"), Some(&6));
    assert_eq!(m.get("é"), Some(&4));
    assert_eq!(m.get("c"), None);
}

#[test]
fn sets_join_under_the_first() {
    let mut s = DisjointSets::new(5);
    s.union(1, 3);
    s.union(3, 4);
    assert_eq!(s.find(4), 1);
    assert_eq!(s.find(3), 1);
    assert_eq!(s.find(0), 0);
    s.union(0, 4);
    assert_eq!(s.find(1), 0);
    assert_eq!(s.find(2), 2);
}
