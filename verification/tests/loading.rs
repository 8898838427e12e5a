use prismaquant::attention::{
    asks_for_own_share, attn_path, dense_requests, dense_steps, finish_steps, heads_to_rotate,
    kept_dense, norm_tensor, quantized_steps, shard_call, weight_source, AttentionConfig,
    DenseShard, FinishStep, LoadStep, Projection, ProjectionRequest, ShardKind, WeightSource,
};
use prismaquant::compressed_tensors::{format_to_variant, CompressedTensorsFormat, Nvfp4Variant};
use prismaquant::mxfp8::{
    check_scales, check_weight, dequant_mxfp8_to_bf16, mxfp8_dequant_element, Mxfp8Error,
    Mxfp8Shape,
};

fn e4m3(b: u8) -> f32 {
    let s: f32 = if b & 0x80 == 0 { 1.0 } else { -1.0 };
    let exp = ((b >> 3) & 0xF) as i32;
    let mant = (b & 0x7) as f32;
    if exp == 0 {
        s * mant / 8.0 * 2.0f32.powi(-6)
    } else if exp == 15 {
        f32::NAN
    } else {
        s * (1.0 + mant / 8.0) * 2.0f32.powi(exp - 7)
    }
}

fn element_by_floats(fp8_byte: u8, e8m0_byte: u8) -> u16 {
    let v = e4m3(fp8_byte);
    let f = if v.is_nan() || v == 0.0 {
        0.0
    } else {
        (v as f64 * 2.0f64.powi(e8m0_byte as i32 - 127)) as f32
    };
    (f.to_bits() >> 16) as u16
}

#[test]
fn every_element_expands_as_floats_do() {
    for b in 0..=255u8 {
        for s in 0..=255u8 {
            assert_eq!(mxfp8_dequant_element(b, s), element_by_floats(b, s), "{b} {s}");
        }
    }
}

#[test]
fn known_elements() {
    assert_eq!(mxfp8_dequant_element(0x38, 127), 0x3F80);
    assert_eq!(mxfp8_dequant_element(0xB8, 127), 0xBF80);
    assert_eq!(mxfp8_dequant_element(0x38, 128), 0x4000);
    assert_eq!(mxfp8_dequant_element(0x01, 127), 0x3B00);
    assert_eq!(mxfp8_dequant_element(0x00, 200), 0);
    assert_eq!(mxfp8_dequant_element(0x80, 200), 0);
    assert_eq!(mxfp8_dequant_element(0x7F, 127), 0);
    assert_eq!(mxfp8_dequant_element(0x38, 255), 0x7F80);
    assert_eq!(mxfp8_dequant_element(0x30, 255), 0x7F00);
    assert_eq!(mxfp8_dequant_element(0xB0, 255), 0xFF00);
    assert_eq!(mxfp8_dequant_element(0x01, 255), 0x7B00);
    assert_eq!(mxfp8_dequant_element(0x77, 254), 0x7F80);
    assert_eq!(mxfp8_dequant_element(0x81, 0), 0x8000);
}

#[test]
fn matrices_expand_group_by_group() {
    let shape = check_weight(true, &[2, 64]).unwrap();
    let fp8: Vec<u8> = (0..128).map(|x| (x % 120) as u8).collect();
    let scales = [127u8, 130, 120, 99];
    assert_eq!(check_scales(&shape, &[2, 2]), Ok(()));
    let out = dequant_mxfp8_to_bf16(&shape, &fp8, &scales);
    assert_eq!(out.len(), 256);
    for i in 0..2 {
        for j in 0..64 {
            let at = i * 64 + j;
            let expected = element_by_floats(fp8[at], scales[i * 2 + j / 32]).to_le_bytes();
            assert_eq!(out[2 * at..2 * at + 2], expected);
        }
    }
}

#[test]
fn bad_weights_are_named() {
    assert_eq!(check_weight(false, &[2, 64]), Err(Mxfp8Error::NotFp8E4m3));
    assert_eq!(check_weight(true, &[2, 64, 1]), Err(Mxfp8Error::NotTwoDimensional));
    assert_eq!(check_weight(true, &[]), Err(Mxfp8Error::NotTwoDimensional));
    assert_eq!(check_weight(true, &[2, 33]), Err(Mxfp8Error::RaggedGroups { k: 33 }));
    let shape = Mxfp8Shape { n: 2, k: 64, groups: 2 };
    assert_eq!(check_weight(true, &[2, 64]), Ok(shape));
    assert_eq!(
        check_scales(&shape, &[2, 3]),
        Err(Mxfp8Error::ScaleShape { rows: 2, groups: 3 })
    );
    assert_eq!(
        check_scales(&shape, &[1, 2]),
        Err(Mxfp8Error::ScaleShape { rows: 1, groups: 2 })
    );
}

#[test]
fn formats_map_to_variants() {
    let cases = [
        ("nvfp4-pack-quantized", Some(Nvfp4Variant::CompressedTensors)),
        ("NVFP4", Some(Nvfp4Variant::CompressedTensors)),
        ("mxfp4", Some(Nvfp4Variant::CompressedTensors)),
        ("MXFP8_E4M3", Some(Nvfp4Variant::MxFp8)),
        ("fp8-mx", Some(Nvfp4Variant::MxFp8)),
        ("BF16", Some(Nvfp4Variant::Bf16Raw)),
        ("bfloat16", Some(Nvfp4Variant::Bf16Raw)),
        ("float-quantized", Some(Nvfp4Variant::Bf16Raw)),
        ("fp8", Some(Nvfp4Variant::Fp8Dequanted)),
        ("Float8_e4m3", Some(Nvfp4Variant::Fp8Dequanted)),
        ("int4", None),
        ("", None),
    ];
    for (name, variant) in cases {
        assert_eq!(format_to_variant(name), variant, "{name}");
    }
}

fn by_prefix(module: &str, pattern: &str) -> bool {
    module.starts_with(pattern)
}

fn group(format: &str, patterns: &[&str]) -> (String, Vec<String>) {
    (format.to_string(), patterns.iter().map(|p| p.to_string()).collect())
}

#[test]
fn ignored_modules_come_first_then_groups_then_the_base() {
    let c = CompressedTensorsFormat::with_groups(
        "mixed-precision".to_string(),
        vec!["lm_head".to_string()],
        vec![
            group("mxfp8", &["a.b", "lm_head"]),
            group("bf16", &["a."]),
            group("fp8", &["a."]),
        ],
    );
    assert_eq!(c.name(), "compressed-tensors");
    assert_eq!(c.base_variant(), Nvfp4Variant::CompressedTensors);
    assert!(c.is_ignored("lm_head", &by_prefix));
    assert!(!c.is_ignored("a.b", &by_prefix));
    assert_eq!(c.variant_for("lm_head", &by_prefix), Nvfp4Variant::Bf16Raw);
    assert_eq!(c.variant_for("a.b.c", &by_prefix), Nvfp4Variant::MxFp8);
    assert_eq!(c.variant_for("a.c", &by_prefix), Nvfp4Variant::Bf16Raw);
    assert_eq!(c.variant_for("z", &by_prefix), Nvfp4Variant::CompressedTensors);
}

#[test]
fn unknown_formats_fall_back_to_the_base() {
    let c = CompressedTensorsFormat::with_groups(
        "mixed-precision".to_string(),
        vec![],
        vec![
            group("int8", &["lm_head", "x"]),
            group("mxfp8", &["lm_head", "y"]),
        ],
    );
    assert_eq!(c.matching_group("lm_head", &by_prefix), Some(0));
    assert_eq!(c.matching_group("y", &by_prefix), Some(1));
    assert_eq!(c.matching_group("z", &by_prefix), None);
    assert_eq!(c.variant_for("lm_head", &by_prefix), Nvfp4Variant::CompressedTensors);
    assert_eq!(c.variant_for("x", &by_prefix), Nvfp4Variant::CompressedTensors);
    assert_eq!(c.variant_for("y", &by_prefix), Nvfp4Variant::MxFp8);
}

#[test]
fn uniform_checkpoints_have_one_variant() {
    let c = CompressedTensorsFormat::new("nvfp4".to_string(), vec!["x".to_string()]);
    assert_eq!(c.format, "nvfp4");
    assert!(c.config_groups.is_empty());
    assert_eq!(c.variant_for("x.y", &by_prefix), Nvfp4Variant::Bf16Raw);
    assert_eq!(c.variant_for("y", &by_prefix), Nvfp4Variant::CompressedTensors);
}

fn config() -> AttentionConfig {
    AttentionConfig {
        num_attention_heads: 8,
        num_key_value_heads: 2,
        head_dim: 128,
        attn_gated: true,
        tp_rank: 1,
        tp_world_size: 2,
    }
}

fn request() -> ProjectionRequest {
    ProjectionRequest {
        name: "q_proj".to_string(),
        full_n: 2048,
        full_k: 1000,
        kind: ShardKind::ColumnParallel,
    }
}

#[test]
fn dense_layers_ask_for_their_share() {
    let p = attn_path("model.layers.3");
    assert_eq!(p, "model.layers.3.self_attn");
    let r = dense_requests(&config(), 1000);
    let names: Vec<&str> = r.iter().map(|x| x.name.as_str()).collect();
    assert_eq!(names, vec!["q_proj", "k_proj", "v_proj", "o_proj"]);
    for request in &r {
        match weight_source(Nvfp4Variant::Bf16Raw, &p, &request.name) {
            WeightSource::Dense { tensor } => {
                assert_eq!(tensor, format!("model.layers.3.self_attn.{}.weight", request.name));
            }
            other => panic!("{other:?}"),
        }
    }
    assert_eq!((r[0].full_n, r[0].full_k), (1024, 500));
    assert_eq!((r[1].full_n, r[1].full_k), (128, 500));
    assert_eq!((r[2].full_n, r[2].full_k), (128, 500));
    assert_eq!((r[3].full_n, r[3].full_k), (1000, 512));
    assert_eq!(r[2].kind, ShardKind::ColumnParallel);
    assert_eq!(r[3].kind, ShardKind::RowParallel);
    assert_eq!(norm_tensor(&p, "q_norm"), "model.layers.3.self_attn.q_norm.weight");
}

#[test]
fn only_dense_layers_ask_for_their_own_share() {
    assert!(asks_for_own_share(Nvfp4Variant::Bf16Raw));
    for v in [
        Nvfp4Variant::CompressedTensors,
        Nvfp4Variant::MxFp8,
        Nvfp4Variant::Standard,
        Nvfp4Variant::Fp8Dequanted,
    ] {
        assert!(!asks_for_own_share(v));
    }
}

#[test]
fn no_ranks_count_as_one() {
    let c = AttentionConfig { tp_world_size: 0, attn_gated: false, ..config() };
    assert_eq!(c.tp_size(), 1);
    assert_eq!(c.q_proj_rows(), 1024);
    assert!(quantized_steps(&c, &request(), 1, 2).is_empty());
}

#[test]
fn sources_by_variant() {
    match weight_source(Nvfp4Variant::CompressedTensors, "p", "q_proj") {
        WeightSource::Quantized { prefix } => assert_eq!(prefix, "p.q_proj"),
        other => panic!("{other:?}"),
    }
    match weight_source(Nvfp4Variant::MxFp8, "p", "k_proj") {
        WeightSource::Mxfp8 { prefix } => assert_eq!(prefix, "p.k_proj"),
        other => panic!("{other:?}"),
    }
    for v in [Nvfp4Variant::Bf16Raw, Nvfp4Variant::Standard, Nvfp4Variant::Fp8Dequanted] {
        match weight_source(v, "p", "v_proj") {
            WeightSource::Dense { tensor } => assert_eq!(tensor, "p.v_proj.weight"),
            other => panic!("{other:?}"),
        }
    }
}

#[test]
fn buffers_by_variant() {
    let shard = DenseShard { buffer: 20, local_n: 256, local_k: 64 };
    let whole = DenseShard { buffer: 10, local_n: 256, local_k: 64 };
    let quantize = LoadStep::Quantize { buffer: 20, local_n: 256, local_k: 64 };
    let rotate = LoadStep::Rotate { buffer: 20, local_k: 64, n_heads: 2, head_dim: 128 };

    let call = shard_call(&config(), &request(), 7);
    assert_eq!((call.buffer, call.full_n, call.full_k), (7, 2048, 1000));
    assert_eq!((call.tp_rank, call.tp_size), (1, 2));
    assert_eq!(call.kind, ShardKind::ColumnParallel);
    assert_eq!(
        quantized_steps(&config(), &request(), 7, 8),
        vec![
            LoadStep::ShardQuantized { call, group_size: 16 },
            LoadStep::Free { buffer: 7 },
            LoadStep::Free { buffer: 8 }
        ]
    );
    assert_eq!(
        dense_steps(Nvfp4Variant::MxFp8, true, "q_proj", 128, 10, &shard),
        vec![quantize, LoadStep::Free { buffer: 20 }, LoadStep::Free { buffer: 10 }]
    );
    assert_eq!(
        dense_steps(Nvfp4Variant::Bf16Raw, true, "q_proj", 128, 10, &shard),
        vec![LoadStep::Free { buffer: 10 }]
    );
    assert!(dense_steps(Nvfp4Variant::Bf16Raw, true, "q_proj", 128, 10, &whole).is_empty());
    assert_eq!(
        dense_steps(Nvfp4Variant::Standard, true, "q_proj", 128, 10, &shard),
        vec![rotate, quantize, LoadStep::Free { buffer: 20 }]
    );
    assert_eq!(
        dense_steps(Nvfp4Variant::Fp8Dequanted, false, "q_proj", 128, 10, &shard),
        vec![quantize, LoadStep::Free { buffer: 20 }]
    );
    assert_eq!(
        dense_steps(Nvfp4Variant::Standard, true, "o_proj", 128, 10, &whole),
        vec![LoadStep::Quantize { buffer: 10, local_n: 256, local_k: 64 }]
    );
    assert_eq!(kept_dense(Nvfp4Variant::MxFp8, 10, &shard), None);
    assert_eq!(kept_dense(Nvfp4Variant::CompressedTensors, 10, &shard), None);
    assert_eq!(kept_dense(Nvfp4Variant::Bf16Raw, 10, &shard), Some(20));
    assert_eq!(kept_dense(Nvfp4Variant::Standard, 10, &shard), Some(10));
}

#[test]
fn rotation_needs_whole_heads_of_the_right_size() {
    assert_eq!(heads_to_rotate(true, "k_proj", 128, 384), Some(3));
    assert_eq!(heads_to_rotate(true, "k_proj", 128, 0), None);
    assert_eq!(heads_to_rotate(true, "k_proj", 128, 200), None);
    assert_eq!(heads_to_rotate(true, "k_proj", 256, 512), None);
    assert_eq!(heads_to_rotate(true, "o_proj", 128, 384), None);
    assert_eq!(heads_to_rotate(false, "k_proj", 128, 384), None);
}

#[test]
fn layers_finish_by_variant() {
    assert_eq!(
        finish_steps(Nvfp4Variant::Bf16Raw, &config(), 1000),
        vec![FinishStep::UseDenseO]
    );
    assert_eq!(
        finish_steps(Nvfp4Variant::MxFp8, &config(), 1000),
        vec![
            FinishStep::Transpose { projection: Projection::Q, n: 2048, k: 1000 },
            FinishStep::Transpose { projection: Projection::K, n: 256, k: 1000 },
            FinishStep::Transpose { projection: Projection::V, n: 256, k: 1000 },
            FinishStep::Transpose { projection: Projection::O, n: 1000, k: 1024 },
            FinishStep::SetPrefillWeights,
            FinishStep::PredequantForPrefill,
        ]
    );
}
