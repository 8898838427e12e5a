//! What it takes to load the attention weights of one layer, variant by variant.
//!
//! Device work stays with the caller. The functions here say which tensors to read, how to shard
//! them, what to do with each buffer, and how to put the layer together.
use crate::compressed_tensors::Nvfp4Variant;
use crate::text::{chars_of, spells};
use vstd::prelude::*;
use vstd::string::StringExecFns;

verus! {

/// The part of a model configuration that attention loading looks at.
#[derive(Debug, Clone, Copy)]
pub struct AttentionConfig {
    pub num_attention_heads: usize,
    pub num_key_value_heads: usize,
    pub head_dim: usize,
    /// Whether the q projection carries a gate of its own size.
    pub attn_gated: bool,
    pub tp_rank: usize,
    pub tp_world_size: usize,
}

/// How a projection is split over tensor-parallel ranks.
#[derive(Debug, Clone, Copy, PartialEq, Eq, Structural)]
pub enum ShardKind {
    ColumnParallel,
    RowParallel,
}

/// A projection to load: its name, the shape it is sharded as, and how it is split.
#[derive(Debug)]
pub struct ProjectionRequest {
    pub name: String,
    pub full_n: usize,
    pub full_k: usize,
    pub kind: ShardKind,
}

/// Columns per scale of an NVFP4 weight.
pub const NVFP4_GROUP_SIZE: usize = 16;

/// Head size for which the weight rotation is defined.
pub const ROTATED_HEAD_DIM: usize = 128;

impl AttentionConfig {
    /// Number of tensor-parallel ranks, at least one.
    pub open spec fn ranks(self) -> int {
        if self.tp_world_size == 0 {
            1
        } else {
            self.tp_world_size as int
        }
    }

    /// Rows of the q projection over all ranks.
    pub open spec fn q_rows(self) -> int {
        self.num_attention_heads * self.head_dim * if self.attn_gated {
            2int
        } else {
            1
        }
    }

    /// Rows of the k and v projections over all ranks.
    pub open spec fn kv_rows(self) -> int {
        self.num_key_value_heads * self.head_dim
    }

    /// Columns of the o projection over all ranks.
    pub open spec fn o_columns(self) -> int {
        self.num_attention_heads * self.head_dim
    }

    /// Whether the projection sizes can be counted.
    pub open spec fn fits(self) -> bool {
        self.q_rows() <= usize::MAX && self.kv_rows() <= usize::MAX
    }

    /// Number of tensor-parallel ranks, at least one.
    pub fn tp_size(&self) -> (r: usize)
        ensures
            r == self.ranks(),
            r >= 1,
    {
        if self.tp_world_size == 0 {
            1
        } else {
            self.tp_world_size
        }
    }

    /// Rows of the q projection over all ranks.
    pub fn q_proj_rows(&self) -> (r: usize)
        requires
            self.fits(),
        ensures
            r == self.q_rows(),
    {
        proof {
            let x = self.num_attention_heads * self.head_dim;
            assert(x >= 0) by (nonlinear_arith)
                requires
                    x == self.num_attention_heads * self.head_dim,
            ;
            assert(x * 1 == x && x * 2 == x + x);
        }
        let base: usize = self.num_attention_heads * self.head_dim;
        if self.attn_gated {
            base * 2
        } else {
            base
        }
    }

    /// Rows of the k and v projections over all ranks.
    pub fn kv_proj_rows(&self) -> (r: usize)
        requires
            self.fits(),
        ensures
            r == self.kv_rows(),
    {
        assert(self.num_key_value_heads * self.head_dim >= 0) by (nonlinear_arith);
        self.num_key_value_heads * self.head_dim
    }

    /// Columns of the o projection over all ranks.
    pub fn o_proj_columns(&self) -> (r: usize)
        requires
            self.fits(),
        ensures
            r == self.o_columns(),
    {
        proof {
            let x = self.num_attention_heads * self.head_dim;
            assert(x >= 0) by (nonlinear_arith)
                requires
                    x == self.num_attention_heads * self.head_dim,
            ;
            assert(x * 1 == x && x * 2 == x + x);
        }
        self.num_attention_heads * self.head_dim
    }
}

/// Module path of a layer's attention.
pub open spec fn attention_path(layer: Seq<char>) -> Seq<char> {
    layer + ".self_attn"@
}

/// The path of a part of a module.
pub open spec fn part(module: Seq<char>, name: Seq<char>) -> Seq<char> {
    module + "."@ + name
}

/// Module path of a layer's attention.
pub fn attn_path(layer: &str) -> (r: String)
    ensures
        r@ == attention_path(layer@),
{
    layer.to_string().concat(".self_attn")
}

/// The path of a part of a module.
pub fn join_path(module: &str, name: &str) -> (r: String)
    ensures
        r@ == part(module@, name@),
{
    module.to_string().concat(".").concat(name)
}

/// Whether a request asks for a named projection of that shape.
pub open spec fn asks_for(
    r: ProjectionRequest,
    name: Seq<char>,
    full_n: int,
    full_k: int,
    kind: ShardKind,
) -> bool {
    &&& r.name@ == name
    &&& r.full_n == full_n
    &&& r.full_k == full_k
    &&& r.kind == kind
}

/// Whether a layer asks for the projections of [`dense_requests`], and not for those that the
/// runtime lists with the shapes they have on disk.
pub fn asks_for_own_share(variant: Nvfp4Variant) -> (r: bool)
    ensures
        r == (variant == Nvfp4Variant::Bf16Raw),
{
    variant == Nvfp4Variant::Bf16Raw
}

/// Whether requests ask for the projections of a layer that stays dense: q, k, v and o, each with
/// its share of one rank.
pub open spec fn asks_for_dense(
    config: AttentionConfig,
    h: usize,
    requests: Seq<ProjectionRequest>,
) -> bool {
    &&& requests.len() == 4
    &&& asks_for(
        requests[0],
        "q_proj"@,
        config.q_rows() / config.ranks(),
        h as int / config.ranks(),
        ShardKind::ColumnParallel,
    )
    &&& asks_for(
        requests[1],
        "k_proj"@,
        config.kv_rows() / config.ranks(),
        h as int / config.ranks(),
        ShardKind::ColumnParallel,
    )
    &&& asks_for(
        requests[2],
        "v_proj"@,
        config.kv_rows() / config.ranks(),
        h as int / config.ranks(),
        ShardKind::ColumnParallel,
    )
    &&& asks_for(
        requests[3],
        "o_proj"@,
        h as int,
        config.o_columns() / config.ranks(),
        ShardKind::RowParallel,
    )
}

/// The projections of a layer that stays dense.
pub fn dense_requests(config: &AttentionConfig, h: usize) -> (r: Vec<ProjectionRequest>)
    requires
        config.fits(),
    ensures
        asks_for_dense(*config, h, r@),
{
    let ranks: usize = config.tp_size();
    let mut out: Vec<ProjectionRequest> = Vec::new();
    out.push(
        ProjectionRequest {
            name: "q_proj".to_string(),
            full_n: config.q_proj_rows() / ranks,
            full_k: h / ranks,
            kind: ShardKind::ColumnParallel,
        },
    );
    out.push(
        ProjectionRequest {
            name: "k_proj".to_string(),
            full_n: config.kv_proj_rows() / ranks,
            full_k: h / ranks,
            kind: ShardKind::ColumnParallel,
        },
    );
    out.push(
        ProjectionRequest {
            name: "v_proj".to_string(),
            full_n: config.kv_proj_rows() / ranks,
            full_k: h / ranks,
            kind: ShardKind::ColumnParallel,
        },
    );
    out.push(
        ProjectionRequest {
            name: "o_proj".to_string(),
            full_n: h,
            full_k: config.o_proj_columns() / ranks,
            kind: ShardKind::RowParallel,
        },
    );
    out
}

/// Where the weight of a projection comes from.
#[derive(Debug)]
pub enum WeightSource {
    /// A quantized weight under a module path, NVFP4 or whatever its tensors turn out to be.
    Quantized {
        prefix: String,
    },
    /// An MXFP8 weight under a module path, expanded to BF16.
    Mxfp8 {
        prefix: String,
    },
    /// A dense tensor.
    Dense {
        tensor: String,
    },
}

/// Whether a projection's weight comes from a source.
pub open spec fn comes_from(
    variant: Nvfp4Variant,
    attn: Seq<char>,
    name: Seq<char>,
    source: WeightSource,
) -> bool {
    match source {
        WeightSource::Quantized { prefix } => variant == Nvfp4Variant::CompressedTensors && prefix@
            == part(attn, name),
        WeightSource::Mxfp8 { prefix } => variant == Nvfp4Variant::MxFp8 && prefix@ == part(
            attn,
            name,
        ),
        WeightSource::Dense { tensor } => (variant == Nvfp4Variant::Bf16Raw || variant
            == Nvfp4Variant::Standard || variant == Nvfp4Variant::Fp8Dequanted) && tensor@ == part(
            attn,
            name,
        ) + ".weight"@,
    }
}

/// The source of a projection's weight.
pub fn weight_source(variant: Nvfp4Variant, attn: &str, name: &str) -> (r: WeightSource)
    ensures
        comes_from(variant, attn@, name@, r),
{
    let prefix: String = join_path(attn, name);
    match variant {
        Nvfp4Variant::CompressedTensors => WeightSource::Quantized { prefix },
        Nvfp4Variant::MxFp8 => WeightSource::Mxfp8 { prefix },
        Nvfp4Variant::Bf16Raw | Nvfp4Variant::Standard | Nvfp4Variant::Fp8Dequanted => {
            WeightSource::Dense { tensor: prefix.concat(".weight") }
        },
    }
}

/// A device buffer, by address.
pub type Buffer = u64;

/// How to take this rank's share of a weight.
#[derive(Debug, Clone, Copy, PartialEq, Eq, Structural)]
pub struct ShardCall {
    pub buffer: Buffer,
    pub full_n: usize,
    pub full_k: usize,
    pub kind: ShardKind,
    pub tp_rank: usize,
    pub tp_size: usize,
}

/// How to take this rank's share of a requested projection held in a buffer.
pub open spec fn shard_plan(
    config: AttentionConfig,
    request: ProjectionRequest,
    buffer: Buffer,
) -> ShardCall {
    ShardCall {
        buffer,
        full_n: request.full_n,
        full_k: request.full_k,
        kind: request.kind,
        tp_rank: config.tp_rank,
        tp_size: config.ranks() as usize,
    }
}

/// How to take this rank's share of a requested projection held in a buffer.
pub fn shard_call(
    config: &AttentionConfig,
    request: &ProjectionRequest,
    buffer: Buffer,
) -> (r: ShardCall)
    ensures
        r == shard_plan(*config, *request, buffer),
{
    ShardCall {
        buffer,
        full_n: request.full_n,
        full_k: request.full_k,
        kind: request.kind,
        tp_rank: config.tp_rank,
        tp_size: config.tp_size(),
    }
}

/// One rank's share of a dense weight.
#[derive(Debug, Clone, Copy, PartialEq, Eq, Structural)]
pub struct DenseShard {
    pub buffer: Buffer,
    pub local_n: usize,
    pub local_k: usize,
}

/// One step of device work on a loaded weight.
#[derive(Debug, Clone, Copy, PartialEq, Eq, Structural)]
pub enum LoadStep {
    /// Take this rank's share of a quantized weight with a scale per `group_size` columns.
    ShardQuantized {
        call: ShardCall,
        group_size: usize,
    },
    /// Rotate the weight in place, head by head.
    Rotate {
        buffer: Buffer,
        local_k: usize,
        n_heads: usize,
        head_dim: usize,
    },
    /// Quantize the weight to NVFP4.
    Quantize {
        buffer: Buffer,
        local_n: usize,
        local_k: usize,
    },
    /// Give the buffer back.
    Free {
        buffer: Buffer,
    },
}

/// The steps after a quantized weight is read: over more than one rank it is sharded and the
/// full weight given back.
pub open spec fn quantized_plan(
    config: AttentionConfig,
    request: ProjectionRequest,
    weight: Buffer,
    scale: Buffer,
) -> Seq<LoadStep> {
    if config.ranks() == 1 {
        Seq::empty()
    } else {
        seq![
            LoadStep::ShardQuantized {
                call: shard_plan(config, request, weight),
                group_size: NVFP4_GROUP_SIZE,
            },
            LoadStep::Free { buffer: weight },
            LoadStep::Free { buffer: scale },
        ]
    }
}

/// The steps after a quantized weight is read.
pub fn quantized_steps(
    config: &AttentionConfig,
    request: &ProjectionRequest,
    weight: Buffer,
    scale: Buffer,
) -> (r: Vec<LoadStep>)
    ensures
        r@ == quantized_plan(*config, *request, weight, scale),
{
    let mut out: Vec<LoadStep> = Vec::new();
    if config.tp_size() != 1 {
        out.push(
            LoadStep::ShardQuantized {
                call: shard_call(config, request, weight),
                group_size: NVFP4_GROUP_SIZE,
            },
        );
        out.push(LoadStep::Free { buffer: weight });
        out.push(LoadStep::Free { buffer: scale });
    }
    assert(out@ =~= quantized_plan(*config, *request, weight, scale));
    out
}

/// Whether a projection is one of q, k and v.
pub open spec fn is_qkv(name: Seq<char>) -> bool {
    name == "q_proj"@ || name == "k_proj"@ || name == "v_proj"@
}

/// Whole heads to rotate in a projection's share: none unless rotation is on, the projection is
/// q, k or v, the head size is the one rotation is defined for, and the share is whole heads.
pub open spec fn rotated_heads(
    rotation_on: bool,
    name: Seq<char>,
    head_dim: usize,
    local_n: usize,
) -> Option<usize> {
    if rotation_on && is_qkv(name) && head_dim == ROTATED_HEAD_DIM && local_n % ROTATED_HEAD_DIM
        == 0 && local_n > 0 {
        Some((local_n / ROTATED_HEAD_DIM) as usize)
    } else {
        None
    }
}

/// Whole heads to rotate in a projection's share.
pub fn heads_to_rotate(rotation_on: bool, name: &str, head_dim: usize, local_n: usize) -> (r: Option<
    usize,
>)
    ensures
        r == rotated_heads(rotation_on, name@, head_dim, local_n),
{
    let chars: Vec<char> = chars_of(name);
    let qkv: bool = spells(&chars, "q_proj") || spells(&chars, "k_proj") || spells(
        &chars,
        "v_proj",
    );
    if rotation_on && qkv && head_dim == ROTATED_HEAD_DIM {
        let heads: usize = local_n / ROTATED_HEAD_DIM;
        if local_n % ROTATED_HEAD_DIM == 0 && heads > 0 {
            return Some(heads);
        }
    }
    None
}

/// The steps after a dense weight is read and sharded.
///
/// A layer that stays dense only gives back the full weight. The others are quantized. Of an MXFP8
/// weight nothing else is kept. Of a dense checkpoint weight the full weight is kept beside the
/// quantized share.
pub open spec fn dense_plan(
    variant: Nvfp4Variant,
    heads: Option<usize>,
    head_dim: usize,
    source: Buffer,
    shard: DenseShard,
) -> Seq<LoadStep> {
    let quantize = LoadStep::Quantize {
        buffer: shard.buffer,
        local_n: shard.local_n,
        local_k: shard.local_k,
    };
    let rotate = match heads {
        Some(n_heads) => seq![
            LoadStep::Rotate { buffer: shard.buffer, local_k: shard.local_k, n_heads, head_dim },
        ],
        None => Seq::empty(),
    };
    match variant {
        Nvfp4Variant::CompressedTensors => Seq::empty(),
        Nvfp4Variant::MxFp8 => seq![
            quantize,
            LoadStep::Free { buffer: shard.buffer },
            LoadStep::Free { buffer: source },
        ],
        Nvfp4Variant::Bf16Raw => if shard.buffer != source {
            seq![LoadStep::Free { buffer: source }]
        } else {
            Seq::empty()
        },
        Nvfp4Variant::Standard | Nvfp4Variant::Fp8Dequanted => if shard.buffer != source {
            rotate + seq![quantize, LoadStep::Free { buffer: shard.buffer }]
        } else {
            rotate + seq![quantize]
        },
    }
}

/// The steps after a dense weight is read and sharded.
pub fn dense_steps(
    variant: Nvfp4Variant,
    rotation_on: bool,
    name: &str,
    head_dim: usize,
    source: Buffer,
    shard: &DenseShard,
) -> (r: Vec<LoadStep>)
    ensures
        r@ == dense_plan(
            variant,
            rotated_heads(rotation_on, name@, head_dim, shard.local_n),
            head_dim,
            source,
            *shard,
        ),
        r@ == projection_plan(variant, rotation_on, name@, head_dim, source, *shard),
{
    let mut out: Vec<LoadStep> = Vec::new();
    let quantize = LoadStep::Quantize {
        buffer: shard.buffer,
        local_n: shard.local_n,
        local_k: shard.local_k,
    };
    let heads: Option<usize> = heads_to_rotate(rotation_on, name, head_dim, shard.local_n);
    match variant {
        Nvfp4Variant::CompressedTensors => {},
        Nvfp4Variant::MxFp8 => {
            out.push(quantize);
            out.push(LoadStep::Free { buffer: shard.buffer });
            out.push(LoadStep::Free { buffer: source });
        },
        Nvfp4Variant::Bf16Raw => {
            if shard.buffer != source {
                out.push(LoadStep::Free { buffer: source });
            }
        },
        Nvfp4Variant::Standard | Nvfp4Variant::Fp8Dequanted => {
            if let Some(n_heads) = heads {
                out.push(
                    LoadStep::Rotate {
                        buffer: shard.buffer,
                        local_k: shard.local_k,
                        n_heads,
                        head_dim,
                    },
                );
            }
            out.push(quantize);
            if shard.buffer != source {
                out.push(LoadStep::Free { buffer: shard.buffer });
            }
        },
    }
    assert(out@ =~= dense_plan(variant, heads, head_dim, source, *shard));
    out
}

/// The dense buffer that a projection keeps once its steps are done.
pub open spec fn kept(variant: Nvfp4Variant, source: Buffer, shard: DenseShard) -> Option<Buffer> {
    match variant {
        Nvfp4Variant::CompressedTensors | Nvfp4Variant::MxFp8 => None,
        Nvfp4Variant::Bf16Raw => Some(shard.buffer),
        Nvfp4Variant::Standard | Nvfp4Variant::Fp8Dequanted => Some(source),
    }
}

/// The dense buffer that a projection keeps once its steps are done.
pub fn kept_dense(variant: Nvfp4Variant, source: Buffer, shard: &DenseShard) -> (r: Option<Buffer>)
    ensures
        r == kept(variant, source, *shard),
{
    match variant {
        Nvfp4Variant::CompressedTensors | Nvfp4Variant::MxFp8 => None,
        Nvfp4Variant::Bf16Raw => Some(shard.buffer),
        Nvfp4Variant::Standard | Nvfp4Variant::Fp8Dequanted => Some(source),
    }
}

/// A projection of an attention layer.
#[derive(Debug, Clone, Copy, PartialEq, Eq, Structural)]
pub enum Projection {
    Q,
    K,
    V,
    O,
}

/// One step of finishing a layer whose weights are loaded.
#[derive(Debug, Clone, Copy, PartialEq, Eq, Structural)]
pub enum FinishStep {
    /// Run the o projection on its dense weight.
    UseDenseO,
    /// Transpose a quantized projection of `n` rows and `k` columns for prefill.
    Transpose {
        projection: Projection,
        n: usize,
        k: usize,
    },
    /// Install the transposed weights.
    SetPrefillWeights,
    /// Prepare the weights that prefill uses dequantized.
    PredequantForPrefill,
}

/// The steps that finish a layer: a dense one gets its dense o weight, a quantized one its prefill
/// weights.
pub open spec fn finish_plan(
    variant: Nvfp4Variant,
    config: AttentionConfig,
    h: usize,
) -> Seq<FinishStep> {
    if variant == Nvfp4Variant::Bf16Raw {
        seq![FinishStep::UseDenseO]
    } else {
        seq![
            FinishStep::Transpose {
                projection: Projection::Q,
                n: config.q_rows() as usize,
                k: h,
            },
            FinishStep::Transpose {
                projection: Projection::K,
                n: config.kv_rows() as usize,
                k: h,
            },
            FinishStep::Transpose {
                projection: Projection::V,
                n: config.kv_rows() as usize,
                k: h,
            },
            FinishStep::Transpose {
                projection: Projection::O,
                n: h,
                k: config.o_columns() as usize,
            },
            FinishStep::SetPrefillWeights,
            FinishStep::PredequantForPrefill,
        ]
    }
}

/// The steps that finish a layer.
pub fn finish_steps(variant: Nvfp4Variant, config: &AttentionConfig, h: usize) -> (r: Vec<FinishStep>)
    requires
        config.fits(),
    ensures
        r@ == finish_plan(variant, *config, h),
{
    let mut out: Vec<FinishStep> = Vec::new();
    if variant == Nvfp4Variant::Bf16Raw {
        out.push(FinishStep::UseDenseO);
    } else {
        out.push(
            FinishStep::Transpose { projection: Projection::Q, n: config.q_proj_rows(), k: h },
        );
        out.push(
            FinishStep::Transpose { projection: Projection::K, n: config.kv_proj_rows(), k: h },
        );
        out.push(
            FinishStep::Transpose { projection: Projection::V, n: config.kv_proj_rows(), k: h },
        );
        out.push(
            FinishStep::Transpose { projection: Projection::O, n: h, k: config.o_proj_columns() },
        );
        out.push(FinishStep::SetPrefillWeights);
        out.push(FinishStep::PredequantForPrefill);
    }
    assert(out@ =~= finish_plan(variant, *config, h));
    out
}

/// The tensor of a per-head norm of the attention module.
pub fn norm_tensor(attn: &str, norm: &str) -> (r: String)
    ensures
        r@ == part(attn@, norm@) + ".weight"@,
{
    join_path(attn, norm).concat(".weight")
}

/// Whether steps give a buffer back.
pub open spec fn gives_back(steps: Seq<LoadStep>, buffer: Buffer) -> bool {
    exists|i: int| 0 <= i < steps.len() && #[trigger] steps[i] == (LoadStep::Free { buffer })
}

/// Whether steps quantize the weight.
pub open spec fn quantizes(steps: Seq<LoadStep>) -> bool {
    exists|i: int| 0 <= i < steps.len() && (#[trigger] steps[i]) is Quantize
}

/// A layer that stays dense is never quantized, and every other dense source is.
pub proof fn only_bf16_stays_dense(
    variant: Nvfp4Variant,
    heads: Option<usize>,
    head_dim: usize,
    source: Buffer,
    shard: DenseShard,
)
    requires
        variant != Nvfp4Variant::CompressedTensors,
    ensures
        quantizes(dense_plan(variant, heads, head_dim, source, shard)) <==> variant
            != Nvfp4Variant::Bf16Raw,
{
    let steps = dense_plan(variant, heads, head_dim, source, shard);
    match variant {
        Nvfp4Variant::MxFp8 => {
            assert(steps[0] is Quantize);
        },
        Nvfp4Variant::Standard | Nvfp4Variant::Fp8Dequanted => {
            let at = if heads is Some {
                1int
            } else {
                0
            };
            assert(steps[at] is Quantize);
        },
        _ => {},
    }
}

/// A layer that stays dense reads the tensors of its own q, k, v and o projections, and keeps what
/// it reads as dense weights.
pub proof fn dense_layers_read_their_projections(
    config: AttentionConfig,
    h: usize,
    layer: Seq<char>,
    requests: Seq<ProjectionRequest>,
    i: int,
    source: WeightSource,
    heads: Option<usize>,
    full: Buffer,
    shard: DenseShard,
)
    requires
        asks_for_dense(config, h, requests),
        0 <= i < 4,
        comes_from(
            Nvfp4Variant::Bf16Raw,
            attention_path(layer),
            requests[i].name@,
            source,
        ),
    ensures
        source matches WeightSource::Dense { tensor } && tensor@ == layer + ".self_attn."@ + seq![
            "q_proj"@,
            "k_proj"@,
            "v_proj"@,
            "o_proj"@,
        ][i] + ".weight"@,
        !quantizes(dense_plan(Nvfp4Variant::Bf16Raw, heads, config.head_dim, full, shard)),
        kept(Nvfp4Variant::Bf16Raw, full, shard) == Some(shard.buffer),
{
    reveal_strlit(".self_attn");
    reveal_strlit(".");
    reveal_strlit(".self_attn.");
    only_bf16_stays_dense(Nvfp4Variant::Bf16Raw, heads, config.head_dim, full, shard);
    assert(".self_attn"@ + "."@ =~= ".self_attn."@);
    assert(attention_path(layer) + "."@ =~= layer + ".self_attn."@);
}

/// The buffer that a projection keeps is not given back.
pub proof fn kept_buffer_stays(
    variant: Nvfp4Variant,
    heads: Option<usize>,
    head_dim: usize,
    source: Buffer,
    shard: DenseShard,
)
    ensures
        kept(variant, source, shard) matches Some(b) ==> !gives_back(
            dense_plan(variant, heads, head_dim, source, shard),
            b,
        ),
{
}

/// No buffer of a dense source is lost: each is kept or given back.
pub proof fn no_buffer_is_lost(
    variant: Nvfp4Variant,
    heads: Option<usize>,
    head_dim: usize,
    source: Buffer,
    shard: DenseShard,
)
    requires
        variant != Nvfp4Variant::CompressedTensors,
    ensures
        ({
            let steps = dense_plan(variant, heads, head_dim, source, shard);
            let keep = kept(variant, source, shard);
            &&& keep == Some(source) || gives_back(steps, source)
            &&& keep == Some(shard.buffer) || gives_back(steps, shard.buffer)
        }),
{
    let steps = dense_plan(variant, heads, head_dim, source, shard);
    match variant {
        Nvfp4Variant::MxFp8 => {
            assert(steps[1] == (LoadStep::Free { buffer: shard.buffer }));
            assert(steps[2] == (LoadStep::Free { buffer: source }));
        },
        Nvfp4Variant::Bf16Raw => {
            if shard.buffer != source {
                assert(steps[0] == (LoadStep::Free { buffer: source }));
            }
        },
        _ => {
            if shard.buffer != source {
                assert(steps[steps.len() - 1] == (LoadStep::Free { buffer: shard.buffer }));
            }
        },
    }
}

/// No buffer is given back twice, but for an MXFP8 weight whose share is the full weight itself.
pub proof fn no_buffer_is_freed_twice(
    variant: Nvfp4Variant,
    heads: Option<usize>,
    head_dim: usize,
    source: Buffer,
    shard: DenseShard,
    i: int,
    j: int,
)
    requires
        variant == Nvfp4Variant::MxFp8 ==> shard.buffer != source,
        0 <= i < j < dense_plan(variant, heads, head_dim, source, shard).len(),
        dense_plan(variant, heads, head_dim, source, shard)[i] is Free,
        dense_plan(variant, heads, head_dim, source, shard)[j] is Free,
    ensures
        dense_plan(variant, heads, head_dim, source, shard)[i] != dense_plan(
            variant,
            heads,
            head_dim,
            source,
            shard,
        )[j],
{
}

/// There is at least one rank, and where ranks are configured there are that many.
pub proof fn ranks_are_as_configured(config: AttentionConfig)
    ensures
        config.ranks() >= 1,
        config.tp_world_size > 0 ==> config.ranks() == config.tp_world_size,
        config.tp_world_size == 0 ==> config.ranks() == 1,
{
}

/// A projection has a row, or column, for each element of each of its heads, and a gate doubles the
/// rows of q.
pub proof fn heads_make_the_sizes(config: AttentionConfig)
    ensures
        config.o_columns() == config.num_attention_heads * config.head_dim,
        config.kv_rows() == config.num_key_value_heads * config.head_dim,
        config.attn_gated ==> config.q_rows() == config.o_columns() + config.o_columns(),
        !config.attn_gated ==> config.q_rows() == config.o_columns(),
{
    let x = config.num_attention_heads * config.head_dim;
    assert(x * 1 == x && x * 2 == x + x);
}

/// The sizes of a layer that stays dense are those of the model shared out over the ranks, with
/// what is left over dropped. The o projection keeps all its rows.
pub proof fn dense_requests_share_out_the_sizes(
    config: AttentionConfig,
    h: usize,
    requests: Seq<ProjectionRequest>,
)
    requires
        asks_for_dense(config, h, requests),
    ensures
        requests.len() == 4,
        requests[0].name@ == "q_proj"@ && requests[1].name@ == "k_proj"@ && requests[2].name@
            == "v_proj"@ && requests[3].name@ == "o_proj"@,
        requests[0].full_n * config.ranks() <= config.q_rows() < (requests[0].full_n + 1)
            * config.ranks(),
        requests[1].full_n * config.ranks() <= config.kv_rows() < (requests[1].full_n + 1)
            * config.ranks(),
        requests[2].full_n == requests[1].full_n,
        requests[3].full_n == h,
        requests[0].full_k * config.ranks() <= h < (requests[0].full_k + 1) * config.ranks(),
        requests[1].full_k == requests[0].full_k,
        requests[2].full_k == requests[0].full_k,
        requests[3].full_k * config.ranks() <= config.o_columns() < (requests[3].full_k + 1)
            * config.ranks(),
        requests[0].kind == ShardKind::ColumnParallel,
        requests[1].kind == ShardKind::ColumnParallel,
        requests[2].kind == ShardKind::ColumnParallel,
        requests[3].kind == ShardKind::RowParallel,
{
    share_is_whole(config.q_rows(), config.ranks());
    share_is_whole(config.kv_rows(), config.ranks());
    share_is_whole(config.o_columns(), config.ranks());
    share_is_whole(h as int, config.ranks());
}

proof fn share_is_whole(x: int, n: int)
    requires
        n > 0,
    ensures
        (x / n) * n <= x < (x / n + 1) * n,
{
    let q = x / n;
    let r = x % n;
    assert(x == n * q + r && 0 <= r < n) by (nonlinear_arith)
        requires
            n > 0,
            q == x / n,
            r == x % n,
    ;
    assert(q * n <= x < (q + 1) * n) by (nonlinear_arith)
        requires
            x == n * q + r,
            0 <= r < n,
    ;
}

/// A projection is read from its own place in the layer: as a quantized weight, as an MXFP8
/// weight, or as a dense tensor, by variant.
pub proof fn sources_lie_in_the_layer(
    variant: Nvfp4Variant,
    layer: Seq<char>,
    name: Seq<char>,
    source: WeightSource,
)
    requires
        comes_from(variant, attention_path(layer), name, source),
    ensures
        source is Quantized <==> variant == Nvfp4Variant::CompressedTensors,
        source is Mxfp8 <==> variant == Nvfp4Variant::MxFp8,
        match source {
            WeightSource::Quantized { prefix } => prefix@ == layer + ".self_attn."@ + name,
            WeightSource::Mxfp8 { prefix } => prefix@ == layer + ".self_attn."@ + name,
            WeightSource::Dense { tensor } => tensor@ == layer + ".self_attn."@ + name + ".weight"@,
        },
{
    reveal_strlit(".self_attn");
    reveal_strlit(".");
    reveal_strlit(".self_attn.");
    assert(".self_attn"@ + "."@ =~= ".self_attn."@);
    assert(attention_path(layer) + "."@ =~= layer + ".self_attn."@);
}

/// The parts of a layer's attention lie under its path, after a dot.
pub proof fn parts_lie_in_the_layer(layer: Seq<char>, name: Seq<char>)
    ensures
        part(attention_path(layer), name) == layer + ".self_attn."@ + name,
{
    reveal_strlit(".self_attn");
    reveal_strlit(".");
    reveal_strlit(".self_attn.");
    assert(".self_attn"@ + "."@ =~= ".self_attn."@);
    assert(attention_path(layer) + "."@ =~= layer + ".self_attn."@);
}

/// A share is taken of the given buffer, in the shape and manner requested, for the configured
/// rank among all ranks.
pub proof fn shares_are_as_requested(
    config: AttentionConfig,
    request: ProjectionRequest,
    buffer: Buffer,
)
    ensures
        ({
            let call = shard_plan(config, request, buffer);
            &&& call.buffer == buffer
            &&& call.full_n == request.full_n
            &&& call.full_k == request.full_k
            &&& call.kind == request.kind
            &&& call.tp_rank == config.tp_rank
            &&& call.tp_size >= 1
            &&& config.tp_world_size > 0 ==> call.tp_size == config.tp_world_size
            &&& config.tp_world_size == 0 ==> call.tp_size == 1
        }),
{
}

/// A quantized weight of one rank stays as it was read. Over more ranks the share is taken first,
/// with a scale for every sixteen columns, and then weight and scales are given back, once each.
pub proof fn quantized_weights_are_shared_out(
    config: AttentionConfig,
    request: ProjectionRequest,
    weight: Buffer,
    scale: Buffer,
)
    ensures
        config.tp_world_size <= 1 ==> quantized_plan(config, request, weight, scale).len() == 0,
        config.tp_world_size > 1 ==> {
            let steps = quantized_plan(config, request, weight, scale);
            &&& steps.len() == 3
            &&& steps[0] matches LoadStep::ShardQuantized { call, group_size } && call
                == shard_plan(config, request, weight) && group_size == 16
            &&& steps[1] == (LoadStep::Free { buffer: weight })
            &&& steps[2] == (LoadStep::Free { buffer: scale })
        },
{
}

/// Heads are rotated where rotation is on, for q, k and v, at the head size of 128, and where the
/// share is whole heads; then all of them are.
pub proof fn whole_heads_are_rotated(
    rotation_on: bool,
    name: Seq<char>,
    head_dim: usize,
    local_n: usize,
)
    ensures
        rotated_heads(rotation_on, name, head_dim, local_n) matches Some(n) ==> n > 0 && n * 128
            == local_n,
        rotated_heads(rotation_on, name, head_dim, local_n) is Some <==> rotation_on && head_dim
            == 128 && local_n > 0 && local_n as int % 128 == 0 && (name == "q_proj"@ || name
            == "k_proj"@ || name == "v_proj"@),
{
}

/// A dense weight is quantized once, in the shape of its share, unless the layer stays dense. It is
/// rotated before that where heads are to be rotated and it comes from a dense checkpoint, once,
/// and at no other time.
pub proof fn dense_weights_are_rotated_and_quantized(
    variant: Nvfp4Variant,
    heads: Option<usize>,
    head_dim: usize,
    source: Buffer,
    shard: DenseShard,
    i: int,
)
    requires
        0 <= i < dense_plan(variant, heads, head_dim, source, shard).len(),
    ensures
        ({
            let steps = dense_plan(variant, heads, head_dim, source, shard);
            let from_checkpoint = variant == Nvfp4Variant::Standard || variant
                == Nvfp4Variant::Fp8Dequanted;
            let at: int = if from_checkpoint && heads is Some {
                1
            } else {
                0
            };
            &&& steps[i] is Rotate <==> from_checkpoint && heads is Some && i == 0
            &&& steps[i] is Quantize <==> variant != Nvfp4Variant::Bf16Raw && i == at
            &&& steps[i] is Free <==> variant == Nvfp4Variant::Bf16Raw || i > at
            &&& steps[i] matches LoadStep::Rotate { buffer, local_k, n_heads, head_dim: dim }
                ==> buffer == shard.buffer && local_k == shard.local_k && Some(n_heads) == heads
                && dim == head_dim
            &&& steps[i] matches LoadStep::Quantize { buffer, local_n, local_k } ==> buffer
                == shard.buffer && local_n == shard.local_n && local_k == shard.local_k
        }),
{
}

/// Of a dense weight's buffers those that are not kept are given back, and no others: of an MXFP8
/// weight both, of a layer that stays dense the full weight where the share is another buffer, of
/// a dense checkpoint weight the share where it is another buffer.
pub proof fn buffers_not_kept_are_given_back(
    variant: Nvfp4Variant,
    heads: Option<usize>,
    head_dim: usize,
    source: Buffer,
    shard: DenseShard,
    buffer: Buffer,
)
    ensures
        ({
            let steps = dense_plan(variant, heads, head_dim, source, shard);
            gives_back(steps, buffer) <==> match variant {
                Nvfp4Variant::CompressedTensors => false,
                Nvfp4Variant::MxFp8 => buffer == source || buffer == shard.buffer,
                Nvfp4Variant::Bf16Raw => buffer == source && source != shard.buffer,
                Nvfp4Variant::Standard | Nvfp4Variant::Fp8Dequanted => buffer == shard.buffer
                    && source != shard.buffer,
            }
        }),
        variant == Nvfp4Variant::CompressedTensors ==> dense_plan(
            variant,
            heads,
            head_dim,
            source,
            shard,
        ).len() == 0,
{
    let steps = dense_plan(variant, heads, head_dim, source, shard);
    match variant {
        Nvfp4Variant::CompressedTensors => {},
        Nvfp4Variant::MxFp8 => {
            assert(steps[1] == (LoadStep::Free { buffer: shard.buffer }));
            assert(steps[2] == (LoadStep::Free { buffer: source }));
        },
        Nvfp4Variant::Bf16Raw => {
            if shard.buffer != source {
                assert(steps[0] == (LoadStep::Free { buffer: source }));
            }
        },
        _ => {
            if shard.buffer != source {
                assert(steps[steps.len() - 1] == (LoadStep::Free { buffer: shard.buffer }));
            }
        },
    }
}

/// A dense weight is kept by the layers that are read as dense tensors, and by no others: the share
/// where the layer stays dense, the full weight beside a quantized share.
pub proof fn dense_sources_keep_a_dense_weight(
    variant: Nvfp4Variant,
    attn: Seq<char>,
    name: Seq<char>,
    read: WeightSource,
    heads: Option<usize>,
    head_dim: usize,
    source: Buffer,
    shard: DenseShard,
)
    requires
        comes_from(variant, attn, name, read),
    ensures
        kept(variant, source, shard) is Some <==> read is Dense,
        kept(variant, source, shard) matches Some(b) ==> b == if quantizes(
            dense_plan(variant, heads, head_dim, source, shard),
        ) {
            source
        } else {
            shard.buffer
        },
{
    if variant != Nvfp4Variant::CompressedTensors {
        only_bf16_stays_dense(variant, heads, head_dim, source, shard);
    }
}

/// A layer runs o on a dense weight exactly where its weights are kept dense and not quantized.
pub proof fn dense_o_is_for_dense_layers(
    variant: Nvfp4Variant,
    config: AttentionConfig,
    h: usize,
    heads: Option<usize>,
    head_dim: usize,
    source: Buffer,
    shard: DenseShard,
)
    ensures
        (exists|i: int|
            0 <= i < finish_plan(variant, config, h).len() && #[trigger] finish_plan(
                variant,
                config,
                h,
            )[i] == FinishStep::UseDenseO) <==> kept(variant, source, shard) is Some && !quantizes(
            dense_plan(variant, heads, head_dim, source, shard),
        ),
        variant == Nvfp4Variant::Bf16Raw ==> finish_plan(variant, config, h).len() == 1,
{
    if variant != Nvfp4Variant::CompressedTensors {
        only_bf16_stays_dense(variant, heads, head_dim, source, shard);
    }
    if variant == Nvfp4Variant::Bf16Raw {
        assert(finish_plan(variant, config, h)[0] == FinishStep::UseDenseO);
    }
}

/// A layer with quantized weights is finished by transposing each projection once, with its own
/// rows and columns, then installing the transposed weights, then preparing those that prefill
/// uses dequantized.
pub proof fn quantized_layers_are_prepared_for_prefill(
    variant: Nvfp4Variant,
    config: AttentionConfig,
    h: usize,
    projection: Projection,
)
    requires
        variant != Nvfp4Variant::Bf16Raw,
        config.fits(),
    ensures
        ({
            let steps = finish_plan(variant, config, h);
            let rows = match projection {
                Projection::Q => config.q_rows(),
                Projection::K | Projection::V => config.kv_rows(),
                Projection::O => h as int,
            };
            let columns = match projection {
                Projection::O => config.o_columns(),
                _ => h as int,
            };
            &&& steps.len() == 6
            &&& exists|i: int|
                0 <= i < 4 && (#[trigger] steps[i] matches FinishStep::Transpose {
                    projection: p,
                    n,
                    k,
                } && p == projection && n == rows && k == columns) && forall|j: int|
                    0 <= j < 6 && j != i ==> !(#[trigger] steps[j] matches FinishStep::Transpose {
                        projection: p,
                        ..
                    } && p == projection)
            &&& steps[4] == FinishStep::SetPrefillWeights
            &&& steps[5] == FinishStep::PredequantForPrefill
        }),
{
    let steps = finish_plan(variant, config, h);
    let at: int = match projection {
        Projection::Q => 0,
        Projection::K => 1,
        Projection::V => 2,
        Projection::O => 3,
    };
    heads_make_the_sizes(config);
    let x = config.num_attention_heads * config.head_dim;
    let y = config.num_key_value_heads * config.head_dim;
    assert(x >= 0 && y >= 0) by (nonlinear_arith)
        requires
            x == config.num_attention_heads * config.head_dim,
            y == config.num_key_value_heads * config.head_dim,
    ;
    assert(steps[at] is Transpose);
    assert forall|j: int| 0 <= j < 6 && j != at implies !(#[trigger] steps[j] matches FinishStep::Transpose {
        projection: p,
        ..
    } && p == projection) by {}
}

/// The steps for a named projection after its dense weight is read and sharded.
pub open spec fn projection_plan(
    variant: Nvfp4Variant,
    rotation_on: bool,
    name: Seq<char>,
    head_dim: usize,
    source: Buffer,
    shard: DenseShard,
) -> Seq<LoadStep> {
    dense_plan(
        variant,
        rotated_heads(rotation_on, name, head_dim, shard.local_n),
        head_dim,
        source,
        shard,
    )
}

/// A projection's share is rotated, whole and before it is quantized, where rotation is on, the
/// projection is q, k or v of a dense checkpoint weight, the head size is 128, and the share is
/// whole heads; otherwise it is not.
pub proof fn projections_are_rotated_where_due(
    variant: Nvfp4Variant,
    rotation_on: bool,
    name: Seq<char>,
    head_dim: usize,
    source: Buffer,
    shard: DenseShard,
)
    ensures
        ({
            let steps = projection_plan(variant, rotation_on, name, head_dim, source, shard);
            let due = rotation_on && (variant == Nvfp4Variant::Standard || variant
                == Nvfp4Variant::Fp8Dequanted) && (name == "q_proj"@ || name == "k_proj"@ || name
                == "v_proj"@) && head_dim == 128 && shard.local_n > 0 && shard.local_n as int % 128
                == 0;
            &&& due ==> steps.len() >= 2 && steps[1] is Quantize && (
            steps[0] matches LoadStep::Rotate { buffer, local_k, n_heads, head_dim: dim } && buffer
                == shard.buffer && local_k == shard.local_k && n_heads * dim == shard.local_n && dim
                == head_dim)
            &&& !due ==> forall|i: int| 0 <= i < steps.len() ==> !((#[trigger] steps[i]) is Rotate)
            &&& quantizes(steps) <==> variant != Nvfp4Variant::Bf16Raw && variant
                != Nvfp4Variant::CompressedTensors
        }),
{
    let heads = rotated_heads(rotation_on, name, head_dim, shard.local_n);
    let steps = projection_plan(variant, rotation_on, name, head_dim, source, shard);
    whole_heads_are_rotated(rotation_on, name, head_dim, shard.local_n);
    assert forall|i: int| 0 <= i < steps.len() implies (#[trigger] steps[i] is Rotate) == (heads
        is Some && i == 0 && (variant == Nvfp4Variant::Standard || variant
        == Nvfp4Variant::Fp8Dequanted)) by {
        dense_weights_are_rotated_and_quantized(variant, heads, head_dim, source, shard, i);
    }
    if variant != Nvfp4Variant::CompressedTensors {
        only_bf16_stays_dense(variant, heads, head_dim, source, shard);
    }
    if heads is Some && (variant == Nvfp4Variant::Standard || variant
        == Nvfp4Variant::Fp8Dequanted) {
        dense_weights_are_rotated_and_quantized(variant, heads, head_dim, source, shard, 0);
        dense_weights_are_rotated_and_quantized(variant, heads, head_dim, source, shard, 1);
    }
}

} // verus!
