//! Bidirectional Llama encoder: the tensors of a causal Llama, attention over the full sequence,
//! and no language-model head.
use crate::architectures::llama::{get_or_zeros, is_obtainable, layer_tensor_name, LlamaLayer};
use crate::attn_cpu::CpuBidirectionalAttention;
use crate::bridge::{AttentionBackend, CacheEngine, GpuBuffer, ModelWeights, RunnerError};
use crate::float::{FloatUnit, Half, Single};
use crate::input::ModelInput;
use crate::layers::LayerKernels;
use crate::rope_llama3::{
    compute_inv_freq_llama3, compute_inv_freq_standard, Llama3Scaling, RopeCosSinCache,
};
use crate::runner::ModelRunnerConfig;
use vstd::prelude::*;

verus! {

/// The part of the configuration that running the model reads.
#[derive(Clone, Copy)]
pub struct LlamaBidirectionalConfig {
    pub num_layers: usize,
    pub hidden_size: usize,
    pub num_heads: usize,
    pub num_kv_heads: usize,
    pub head_dim: usize,
    pub rms_norm_eps: Single,
}

/// Llama stack with bidirectional attention.
pub struct LlamaBidirectionalModel {
    config: LlamaBidirectionalConfig,
    embed_tokens: GpuBuffer<Half>,
    layers: Vec<LlamaLayer>,
    norm_weight: GpuBuffer<Half>,
    rope: RopeCosSinCache,
}

/// The inverse frequencies that a configuration asks for may come out as `r`: those of the Llama 3
/// scaling where it names the type "llama3", else the standard ones.
pub open spec fn inv_freq_gives<U: FloatUnit>(config: &ModelRunnerConfig, r: Seq<Single>) -> bool {
    match config.rope_scaling {
        Some(rs) if rs.rope_type@ == "llama3"@ => exists|max_position: Single|
            #[trigger] Single::converts::<U>(rs.original_max_position_embeddings, max_position)
                && crate::rope_llama3::llama3_gives::<U>(
                config.head_dim,
                config.partial_rotary_factor,
                config.rope_theta,
                (Llama3Scaling {
                    factor: rs.factor,
                    low_freq_factor: rs.low_freq_factor,
                    high_freq_factor: rs.high_freq_factor,
                    original_max_position_embeddings: max_position,
                }),
                r,
            ),
        _ => crate::rope_llama3::standard_gives::<U>(config.head_dim, config.rope_theta, r),
    }
}

/// The inverse frequencies that a configuration asks for.
pub fn inv_freq<U: FloatUnit>(config: &ModelRunnerConfig) -> (r: Vec<Single>)
    ensures
        inv_freq_gives::<U>(config, r@),
{
    if let Some(rs) = &config.rope_scaling {
        let llama3: String = "llama3".to_owned();
        if rs.rope_type == llama3 {
            let max_position = U::from_usize(rs.original_max_position_embeddings);
            assert(Single::converts::<U>(rs.original_max_position_embeddings, max_position));
            return compute_inv_freq_llama3::<U>(
                config.head_dim,
                config.partial_rotary_factor,
                config.rope_theta,
                rs.factor,
                rs.low_freq_factor,
                rs.high_freq_factor,
                max_position,
            );
        }
    }
    compute_inv_freq_standard::<U>(config.head_dim, config.rope_theta)
}

/// The number of components of a query row.
pub open spec fn q_features(config: &ModelRunnerConfig) -> usize {
    (config.num_heads * config.head_dim) as usize
}

/// The number of components of a key or value row.
pub open spec fn kv_features(config: &ModelRunnerConfig) -> usize {
    (config.num_kv_heads * config.head_dim) as usize
}

/// What a tensor of layer `layer` is loaded as.
pub open spec fn layer_weight(
    weights: Map<Seq<char>, crate::bridge::Tensor<Half>>,
    layer: nat,
    part: Seq<char>,
    shape: Seq<usize>,
) -> crate::bridge::Tensor<Half> {
    crate::architectures::llama::weight_or_zeros(
        weights,
        crate::architectures::llama::layer_tensor(layer, part),
        shape,
    )
}

/// A tensor of layer `layer` can be had.
pub open spec fn layer_weight_obtainable(
    weights: Map<Seq<char>, crate::bridge::Tensor<Half>>,
    layer: nat,
    part: Seq<char>,
    shape: Seq<usize>,
) -> bool {
    crate::architectures::llama::obtainable(
        weights,
        crate::architectures::llama::layer_tensor(layer, part),
        shape,
    )
}

/// The tensors of layer `layer` are those saved under its names, and zeros where one is missing.
pub open spec fn layer_loaded(
    weights: Map<Seq<char>, crate::bridge::Tensor<Half>>,
    config: &ModelRunnerConfig,
    layer: nat,
    r: LlamaLayer,
) -> bool {
    &&& r.input_layernorm@ == layer_weight(
        weights,
        layer,
        ".input_layernorm.weight"@,
        seq![config.hidden_size],
    )
    &&& r.post_attention_layernorm@ == layer_weight(
        weights,
        layer,
        ".post_attention_layernorm.weight"@,
        seq![config.hidden_size],
    )
    &&& r.q_proj@ == layer_weight(
        weights,
        layer,
        ".self_attn.q_proj.weight"@,
        seq![q_features(config), config.hidden_size],
    )
    &&& r.k_proj@ == layer_weight(
        weights,
        layer,
        ".self_attn.k_proj.weight"@,
        seq![kv_features(config), config.hidden_size],
    )
    &&& r.v_proj@ == layer_weight(
        weights,
        layer,
        ".self_attn.v_proj.weight"@,
        seq![kv_features(config), config.hidden_size],
    )
    &&& r.o_proj@ == layer_weight(
        weights,
        layer,
        ".self_attn.o_proj.weight"@,
        seq![config.hidden_size, q_features(config)],
    )
    &&& r.gate_proj@ == layer_weight(
        weights,
        layer,
        ".mlp.gate_proj.weight"@,
        seq![config.intermediate_size, config.hidden_size],
    )
    &&& r.up_proj@ == layer_weight(
        weights,
        layer,
        ".mlp.up_proj.weight"@,
        seq![config.intermediate_size, config.hidden_size],
    )
    &&& r.down_proj@ == layer_weight(
        weights,
        layer,
        ".mlp.down_proj.weight"@,
        seq![config.hidden_size, config.intermediate_size],
    )
}

/// Every tensor of layer `layer` can be had.
pub open spec fn layer_loadable(
    weights: Map<Seq<char>, crate::bridge::Tensor<Half>>,
    config: &ModelRunnerConfig,
    layer: nat,
) -> bool {
    &&& layer_weight_obtainable(
        weights,
        layer,
        ".input_layernorm.weight"@,
        seq![config.hidden_size],
    )
    &&& layer_weight_obtainable(
        weights,
        layer,
        ".post_attention_layernorm.weight"@,
        seq![config.hidden_size],
    )
    &&& layer_weight_obtainable(
        weights,
        layer,
        ".self_attn.q_proj.weight"@,
        seq![q_features(config), config.hidden_size],
    )
    &&& layer_weight_obtainable(
        weights,
        layer,
        ".self_attn.k_proj.weight"@,
        seq![kv_features(config), config.hidden_size],
    )
    &&& layer_weight_obtainable(
        weights,
        layer,
        ".self_attn.v_proj.weight"@,
        seq![kv_features(config), config.hidden_size],
    )
    &&& layer_weight_obtainable(
        weights,
        layer,
        ".self_attn.o_proj.weight"@,
        seq![config.hidden_size, q_features(config)],
    )
    &&& layer_weight_obtainable(
        weights,
        layer,
        ".mlp.gate_proj.weight"@,
        seq![config.intermediate_size, config.hidden_size],
    )
    &&& layer_weight_obtainable(
        weights,
        layer,
        ".mlp.up_proj.weight"@,
        seq![config.intermediate_size, config.hidden_size],
    )
    &&& layer_weight_obtainable(
        weights,
        layer,
        ".mlp.down_proj.weight"@,
        seq![config.hidden_size, config.intermediate_size],
    )
}

/// One tensor of layer `layer`.
fn load_part(weights: &ModelWeights, layer: usize, part: &str, shape: &[usize]) -> (r: GpuBuffer<
    Half,
>)
    requires
        1 <= shape@.len() <= 2,
        layer_weight_obtainable(weights@, layer as nat, part@, shape@),
    ensures
        r@ == layer_weight(weights@, layer as nat, part@, shape@),
{
    let name: String = layer_tensor_name(layer, part);
    get_or_zeros(weights, name.as_str(), shape)
}

/// The tensors of layer `layer`.
fn load_layer(weights: &ModelWeights, config: &ModelRunnerConfig, layer: usize) -> (r: LlamaLayer)
    requires
        config.num_heads * config.head_dim <= usize::MAX,
        config.num_kv_heads * config.head_dim <= usize::MAX,
        layer_loadable(weights@, config, layer as nat),
    ensures
        layer_loaded(weights@, config, layer as nat, r),
{
    let hidden: usize = config.hidden_size;
    let inner: usize = config.intermediate_size;
    let q: usize = config.num_heads * config.head_dim;
    let kv: usize = config.num_kv_heads * config.head_dim;
    let norm_shape: [usize; 1] = [hidden];
    let q_shape: [usize; 2] = [q, hidden];
    let kv_shape: [usize; 2] = [kv, hidden];
    let o_shape: [usize; 2] = [hidden, q];
    let up_shape: [usize; 2] = [inner, hidden];
    let down_shape: [usize; 2] = [hidden, inner];
    assert(norm_shape@ == seq![hidden]);
    assert(q_shape@ == seq![q, hidden]);
    assert(kv_shape@ == seq![kv, hidden]);
    assert(o_shape@ == seq![hidden, q]);
    assert(up_shape@ == seq![inner, hidden]);
    assert(down_shape@ == seq![hidden, inner]);
    LlamaLayer {
        input_layernorm: load_part(weights, layer, ".input_layernorm.weight", &norm_shape),
        post_attention_layernorm: load_part(
            weights,
            layer,
            ".post_attention_layernorm.weight",
            &norm_shape,
        ),
        q_proj: load_part(weights, layer, ".self_attn.q_proj.weight", &q_shape),
        k_proj: load_part(weights, layer, ".self_attn.k_proj.weight", &kv_shape),
        v_proj: load_part(weights, layer, ".self_attn.v_proj.weight", &kv_shape),
        o_proj: load_part(weights, layer, ".self_attn.o_proj.weight", &o_shape),
        gate_proj: load_part(weights, layer, ".mlp.gate_proj.weight", &up_shape),
        up_proj: load_part(weights, layer, ".mlp.up_proj.weight", &up_shape),
        down_proj: load_part(weights, layer, ".mlp.down_proj.weight", &down_shape),
    }
}

/// Whether one tensor of layer `layer` can be had.
fn can_load_part(weights: &ModelWeights, layer: usize, part: &str, shape: &[usize]) -> (r: bool)
    requires
        1 <= shape@.len() <= 2,
    ensures
        r == layer_weight_obtainable(weights@, layer as nat, part@, shape@),
{
    let name: String = layer_tensor_name(layer, part);
    is_obtainable(weights, name.as_str(), shape)
}

/// Whether every tensor of layer `layer` can be had.
fn can_load_layer(weights: &ModelWeights, config: &ModelRunnerConfig, layer: usize) -> (r: bool)
    requires
        config.num_heads * config.head_dim <= usize::MAX,
        config.num_kv_heads * config.head_dim <= usize::MAX,
    ensures
        r == layer_loadable(weights@, config, layer as nat),
{
    let hidden: usize = config.hidden_size;
    let inner: usize = config.intermediate_size;
    let q: usize = config.num_heads * config.head_dim;
    let kv: usize = config.num_kv_heads * config.head_dim;
    let norm_shape: [usize; 1] = [hidden];
    let q_shape: [usize; 2] = [q, hidden];
    let kv_shape: [usize; 2] = [kv, hidden];
    let o_shape: [usize; 2] = [hidden, q];
    let up_shape: [usize; 2] = [inner, hidden];
    let down_shape: [usize; 2] = [hidden, inner];
    assert(norm_shape@ == seq![hidden]);
    assert(q_shape@ == seq![q, hidden]);
    assert(kv_shape@ == seq![kv, hidden]);
    assert(o_shape@ == seq![hidden, q]);
    assert(up_shape@ == seq![inner, hidden]);
    assert(down_shape@ == seq![hidden, inner]);
    can_load_part(weights, layer, ".input_layernorm.weight", &norm_shape)
        && can_load_part(weights, layer, ".post_attention_layernorm.weight", &norm_shape)
        && can_load_part(weights, layer, ".self_attn.q_proj.weight", &q_shape)
        && can_load_part(weights, layer, ".self_attn.k_proj.weight", &kv_shape)
        && can_load_part(weights, layer, ".self_attn.v_proj.weight", &kv_shape)
        && can_load_part(weights, layer, ".self_attn.o_proj.weight", &o_shape)
        && can_load_part(weights, layer, ".mlp.gate_proj.weight", &up_shape)
        && can_load_part(weights, layer, ".mlp.up_proj.weight", &up_shape)
        && can_load_part(weights, layer, ".mlp.down_proj.weight", &down_shape)
}

/// The number of positions that the rotary tables cover: at least one.
pub open spec fn table_len(config: &ModelRunnerConfig) -> usize {
    if config.max_position == 0 {
        1
    } else {
        config.max_position
    }
}

/// A model of this configuration can be built: every tensor can be had, and the numbers of
/// components and the sizes of the tables are in the range of `usize`.
pub open spec fn loadable(
    weights: Map<Seq<char>, crate::bridge::Tensor<Half>>,
    config: &ModelRunnerConfig,
) -> bool {
    &&& crate::architectures::llama::obtainable(
        weights,
        "model.embed_tokens.weight"@,
        seq![config.vocab_size, config.hidden_size],
    )
    &&& crate::architectures::llama::obtainable(
        weights,
        "model.norm.weight"@,
        seq![config.hidden_size],
    )
    &&& config.num_layers > 0 ==> {
        &&& config.num_heads * config.head_dim <= usize::MAX
        &&& config.num_kv_heads * config.head_dim <= usize::MAX
    }
    &&& forall|layer: nat|
        layer < config.num_layers ==> #[trigger] layer_loadable(weights, config, layer)
    &&& table_len(config) * (config.head_dim as nat / 2) <= usize::MAX
}

/// Whether a model of this configuration can be built.
pub fn can_load(weights: &ModelWeights, config: &ModelRunnerConfig) -> (r: bool)
    ensures
        r == loadable(weights@, config),
{
    let embed_shape: [usize; 2] = [config.vocab_size, config.hidden_size];
    let norm_shape: [usize; 1] = [config.hidden_size];
    assert(embed_shape@ == seq![config.vocab_size, config.hidden_size]);
    assert(norm_shape@ == seq![config.hidden_size]);
    if !is_obtainable(weights, "model.embed_tokens.weight", &embed_shape) || !is_obtainable(
        weights,
        "model.norm.weight",
        &norm_shape,
    ) {
        return false;
    }
    let max_pos: usize = if config.max_position == 0 {
        1
    } else {
        config.max_position
    };
    if max_pos.checked_mul(config.head_dim / 2).is_none() {
        return false;
    }
    if config.num_layers > 0 && (config.num_heads.checked_mul(config.head_dim).is_none()
        || config.num_kv_heads.checked_mul(config.head_dim).is_none()) {
        return false;
    }
    for i in 0..config.num_layers
        invariant
            config.num_layers > 0 ==> {
                &&& config.num_heads * config.head_dim <= usize::MAX
                &&& config.num_kv_heads * config.head_dim <= usize::MAX
            },
            forall|layer: nat| layer < i ==> #[trigger] layer_loadable(weights@, config, layer),
    {
        if !can_load_layer(weights, config, i) {
            assert(!layer_loadable(weights@, config, i as nat));
            return false;
        }
    }
    true
}

impl LlamaBidirectionalModel {
    /// The part of the configuration that running the model reads.
    pub closed spec fn settings(&self) -> LlamaBidirectionalConfig {
        self.config
    }

    /// The embedding table.
    pub closed spec fn embedding(&self) -> GpuBuffer<Half> {
        self.embed_tokens
    }

    /// The tensors of each layer.
    pub closed spec fn stack(&self) -> Seq<LlamaLayer> {
        self.layers@
    }

    /// The weights of the last normalization.
    pub closed spec fn final_norm(&self) -> GpuBuffer<Half> {
        self.norm_weight
    }

    /// The rotary tables.
    pub closed spec fn tables(&self) -> RopeCosSinCache {
        self.rope
    }

    /// There are as many layers as configured, rows have a length, and the rotary tables are
    /// complete and no wider than a head.
    pub open spec fn wf(&self) -> bool {
        &&& self.stack().len() == self.settings().num_layers
        &&& self.settings().num_layers > 0 ==> {
            &&& self.settings().num_heads * self.settings().head_dim <= usize::MAX
            &&& self.settings().num_kv_heads * self.settings().head_dim <= usize::MAX
        }
        &&& self.tables().wf()
        &&& 2 * self.tables().half_dim <= self.settings().head_dim
    }

    /// The model is the one of these weights and this configuration, its rotary tables aside.
    pub open spec fn loaded_from(
        &self,
        weights: Map<Seq<char>, crate::bridge::Tensor<Half>>,
        config: &ModelRunnerConfig,
    ) -> bool {
        &&& self.settings() == LlamaBidirectionalConfig {
            num_layers: config.num_layers,
            hidden_size: config.hidden_size,
            num_heads: config.num_heads,
            num_kv_heads: config.num_kv_heads,
            head_dim: config.head_dim,
            rms_norm_eps: config.rms_norm_eps,
        }
        &&& self.embedding()@ == crate::architectures::llama::weight_or_zeros(
            weights,
            "model.embed_tokens.weight"@,
            seq![config.vocab_size, config.hidden_size],
        )
        &&& self.stack().len() == config.num_layers
        &&& forall|layer: int|
            0 <= layer < config.num_layers ==> layer_loaded(
                weights,
                config,
                layer as nat,
                #[trigger] self.stack()[layer],
            )
        &&& self.final_norm()@ == crate::architectures::llama::weight_or_zeros(
            weights,
            "model.norm.weight"@,
            seq![config.hidden_size],
        )
    }

    /// The rotary tables are those of these inverse frequencies.
    pub open spec fn tables_from<U: FloatUnit>(
        &self,
        config: &ModelRunnerConfig,
        inv_freq: Seq<Single>,
    ) -> bool {
        &&& self.tables().max_seq_len == table_len(config)
        &&& self.tables().half_dim == config.head_dim as nat / 2
        &&& self.tables().cos@.len() == table_len(config) * (config.head_dim as nat / 2)
        &&& self.tables().sin@.len() == table_len(config) * (config.head_dim as nat / 2)
        &&& self.tables().built_from::<U>(inv_freq)
    }

    /// A model of these weights, this configuration and these inverse frequencies.
    pub fn with_inv_freq<U: FloatUnit>(
        weights: ModelWeights,
        config: &ModelRunnerConfig,
        inv_freq: &[Single],
    ) -> (r: Self)
        requires
            loadable(weights@, config),
            inv_freq@.len() == config.head_dim as nat / 2,
        ensures
            r.wf(),
            r.loaded_from(weights@, config),
            r.tables_from::<U>(config, inv_freq@),
    {
        let settings = LlamaBidirectionalConfig {
            num_layers: config.num_layers,
            hidden_size: config.hidden_size,
            num_heads: config.num_heads,
            num_kv_heads: config.num_kv_heads,
            head_dim: config.head_dim,
            rms_norm_eps: config.rms_norm_eps,
        };
        let embed_shape: [usize; 2] = [config.vocab_size, config.hidden_size];
        let norm_shape: [usize; 1] = [config.hidden_size];
        assert(embed_shape@ == seq![config.vocab_size, config.hidden_size]);
        assert(norm_shape@ == seq![config.hidden_size]);
        let embed_tokens = get_or_zeros(&weights, "model.embed_tokens.weight", &embed_shape);
        let mut layers: Vec<LlamaLayer> = Vec::with_capacity(config.num_layers);
        for i in 0..config.num_layers
            invariant
                loadable(weights@, config),
                layers@.len() == i,
                forall|layer: int|
                    0 <= layer < i ==> layer_loaded(
                        weights@,
                        config,
                        layer as nat,
                        #[trigger] layers@[layer],
                    ),
        {
            assert(layer_loadable(weights@, config, i as nat));
            layers.push(load_layer(&weights, config, i));
        }
        let norm_weight = get_or_zeros(&weights, "model.norm.weight", &norm_shape);
        let max_pos: usize = if config.max_position == 0 {
            1
        } else {
            config.max_position
        };
        let rope = RopeCosSinCache::from_inv_freq::<U>(inv_freq, max_pos, config.head_dim);
        LlamaBidirectionalModel { config: settings, embed_tokens, layers, norm_weight, rope }
    }

    /// A model of these weights and this configuration. The inverse frequencies have to come out
    /// as many as a head has pairs of components; with the Llama 3 scaling of a whole head they do
    /// not where the head size is odd.
    pub fn new<U: FloatUnit>(weights: ModelWeights, config: &ModelRunnerConfig) -> (r: Result<
        Self,
        RunnerError,
    >)
        requires
            loadable(weights@, config),
            forall|f: Seq<Single>| #[trigger]
                inv_freq_gives::<U>(config, f) ==> f.len() == config.head_dim as nat / 2,
        ensures
            r matches Ok(model) && model.wf() && model.loaded_from(weights@, config) && exists|
                f: Seq<Single>,
            | #[trigger]
                inv_freq_gives::<U>(config, f) && model.tables_from::<U>(config, f),
    {
        let f = inv_freq::<U>(config);
        assert(inv_freq_gives::<U>(config, f@));
        Ok(Self::with_inv_freq::<U>(weights, config, f.as_slice()))
    }

    /// A model of these weights and this configuration, or nothing where it cannot be built or the
    /// inverse frequencies do not come out as many as a head has pairs of components. A Llama 3
    /// scaling with rotary size `dim` has `(dim + 1) / 2` of them: an odd head, rotated whole, gives
    /// no model, nor does an even one of which a smaller part is rotated, unless one component only
    /// is left out.
    pub fn try_new<U: FloatUnit>(weights: ModelWeights, config: &ModelRunnerConfig) -> (r: Option<
        Self,
    >)
        ensures
            !loadable(weights@, config) ==> r is None,
            loadable(weights@, config) ==> exists|f: Seq<Single>| #[trigger]
                inv_freq_gives::<U>(config, f) && match r {
                    Some(model) => {
                        &&& f.len() == config.head_dim as nat / 2
                        &&& model.wf()
                        &&& model.loaded_from(weights@, config)
                        &&& model.tables_from::<U>(config, f)
                    },
                    None => f.len() != config.head_dim as nat / 2,
                },
    {
        if !can_load(&weights, config) {
            return None;
        }
        let f = inv_freq::<U>(config);
        assert(inv_freq_gives::<U>(config, f@));
        if f.len() == config.head_dim / 2 {
            Some(Self::with_inv_freq::<U>(weights, config, f.as_slice()))
        } else {
            None
        }
    }
}

/// `K::embed_tokens` may return `r`.
pub open spec fn embeds<K: LayerKernels>(
    table: GpuBuffer<Half>,
    token_ids: Vec<u32>,
    hidden_size: usize,
    r: GpuBuffer<Half>,
) -> bool {
    call_ensures(K::embed_tokens, (&table, &token_ids, hidden_size), r)
}

/// `K::rms_norm` may return `r`.
pub open spec fn normalizes<K: LayerKernels>(
    x: GpuBuffer<Half>,
    weight: GpuBuffer<Half>,
    eps: Single,
    r: Result<GpuBuffer<Half>, RunnerError>,
) -> bool {
    call_ensures(K::rms_norm, (&x, &weight, eps), r)
}

/// `K::linear`, without a bias, may return `r`.
pub open spec fn projects<K: LayerKernels>(
    x: GpuBuffer<Half>,
    weight: GpuBuffer<Half>,
    r: Result<GpuBuffer<Half>, RunnerError>,
) -> bool {
    call_ensures(K::linear, (&x, &weight, None), r)
}

/// `K::mlp` on the weights of a layer may return `r`.
pub open spec fn feeds_forward<K: LayerKernels>(
    x: GpuBuffer<Half>,
    layer: LlamaLayer,
    r: Result<GpuBuffer<Half>, RunnerError>,
) -> bool {
    call_ensures(K::mlp, (&x, &layer.gate_proj, &layer.up_proj, &layer.down_proj), r)
}

/// `K::add_residual` may return `r`.
pub open spec fn accumulates<K: LayerKernels>(
    hidden: GpuBuffer<Half>,
    update: GpuBuffer<Half>,
    r: GpuBuffer<Half>,
) -> bool {
    call_ensures(K::add_residual, (hidden, &update), r)
}

/// The attention of layer `layer` may return `r`.
pub open spec fn backend_attends<B: AttentionBackend>(
    attention: &B,
    query: GpuBuffer<Half>,
    key: GpuBuffer<Half>,
    value: GpuBuffer<Half>,
    input: &ModelInput,
    layer: nat,
    r: Result<GpuBuffer<Half>, RunnerError>,
) -> bool {
    call_ensures(
        B::forward,
        (attention, &query, &key, &value, &input.attention_metadata, layer as usize),
        r,
    )
}

/// How far a run has come: the hidden state so far, the error that ended it, or `None` where an
/// operand did not have the rows that the next step reads.
pub type Progress = Option<Result<GpuBuffer<Half>, RunnerError>>;

impl LlamaBidirectionalModel {
    /// Rotating a query or key tensor of `heads` heads may give `r`: the same dimensions, and each
    /// row turned by the angles of its token's position.
    pub open spec fn rotates<U: FloatUnit>(
        &self,
        input: &ModelInput,
        heads: nat,
        x: GpuBuffer<Half>,
        r: GpuBuffer<Half>,
    ) -> bool {
        &&& r.shape@ == x.shape@
        &&& r.data@.len() == x.data@.len()
        &&& self.tables().turns_each::<U>(
            x.data@,
            input.position_ids@,
            heads,
            self.settings().head_dim as nat,
            crate::rope_llama3::rotated_rows(input.position_ids@, input.token_ids@.len()),
            r.data@,
        )
    }

    /// A query or key tensor of `heads` heads has the rows that rotating it reads.
    pub open spec fn rotatable(&self, input: &ModelInput, heads: nat, x: GpuBuffer<Half>) -> bool {
        self.tables().in_bounds(
            x.data@.len(),
            input.position_ids@,
            input.token_ids@.len(),
            heads,
            self.settings().head_dim as nat,
        )
    }

    /// The feed-forward half of a layer.
    pub open spec fn feed_forward_gives<K: LayerKernels>(
        &self,
        layer: nat,
        hidden: GpuBuffer<Half>,
        out: Progress,
    ) -> bool {
        let weights = self.stack()[layer as int];
        exists|normed: Result<GpuBuffer<Half>, RunnerError>|
            {
                &&& #[trigger] normalizes::<K>(
                    hidden,
                    weights.post_attention_layernorm,
                    self.settings().rms_norm_eps,
                    normed,
                )
                &&& match normed {
                    Err(e) => out == Some(Err::<GpuBuffer<Half>, RunnerError>(e)),
                    Ok(normed) => exists|update: Result<GpuBuffer<Half>, RunnerError>|
                        {
                            &&& #[trigger] feeds_forward::<K>(normed, weights, update)
                            &&& residual_gives::<K>(hidden, update, out)
                        },
                }
            }
    }

    /// What follows the attention of a layer: its output is projected and added to the hidden
    /// state, on which the feed-forward half runs.
    pub open spec fn after_attention_gives<K: LayerKernels>(
        &self,
        layer: nat,
        hidden: GpuBuffer<Half>,
        attended: GpuBuffer<Half>,
        out: Progress,
    ) -> bool {
        exists|update: Result<GpuBuffer<Half>, RunnerError>, mid: Progress|
            #![trigger residual_gives::<K>(hidden, update, mid)]
            {
                &&& projects::<K>(attended, self.stack()[layer as int].o_proj, update)
                &&& residual_gives::<K>(hidden, update, mid)
                &&& match mid {
                    Some(Ok(hidden)) => self.feed_forward_gives::<K>(layer, hidden, out),
                    _ => out == mid,
                }
            }
    }

    /// What follows the projections of a layer: query and key are rotated, and attention runs on
    /// them and the value.
    pub open spec fn attention_gives<U: FloatUnit, K: LayerKernels, B: AttentionBackend>(
        &self,
        input: &ModelInput,
        attention: &B,
        layer: nat,
        hidden: GpuBuffer<Half>,
        query: GpuBuffer<Half>,
        key: GpuBuffer<Half>,
        value: GpuBuffer<Half>,
        out: Progress,
    ) -> bool {
        let heads = self.settings().num_heads as nat;
        let kv_heads = self.settings().num_kv_heads as nat;
        if !self.rotatable(input, heads, query) || !self.rotatable(input, kv_heads, key) {
            out is None
        } else {
            exists|q_rot: GpuBuffer<Half>, k_rot: GpuBuffer<Half>|
                #![trigger self.rotates::<U>(input, heads, query, q_rot), self.rotates::<U>(input, kv_heads, key, k_rot)]
                {
                    &&& self.rotates::<U>(input, heads, query, q_rot)
                    &&& self.rotates::<U>(input, kv_heads, key, k_rot)
                    &&& self.rotated_attention_gives::<K, B>(
                        input,
                        attention,
                        layer,
                        hidden,
                        q_rot,
                        k_rot,
                        value,
                        out,
                    )
                }
        }
    }

    /// Attention on rotated operands, and what follows it.
    pub open spec fn rotated_attention_gives<K: LayerKernels, B: AttentionBackend>(
        &self,
        input: &ModelInput,
        attention: &B,
        layer: nat,
        hidden: GpuBuffer<Half>,
        query: GpuBuffer<Half>,
        key: GpuBuffer<Half>,
        value: GpuBuffer<Half>,
        out: Progress,
    ) -> bool {
        if !attention.accepts(&query, &key, &value) {
            out is None
        } else {
            exists|attended: Result<GpuBuffer<Half>, RunnerError>|
                {
                    &&& #[trigger] backend_attends::<B>(
                        attention,
                        query,
                        key,
                        value,
                        input,
                        layer,
                        attended,
                    )
                    &&& match attended {
                        Err(e) => out == Some(Err::<GpuBuffer<Half>, RunnerError>(e)),
                        Ok(attended) => self.after_attention_gives::<K>(
                            layer,
                            hidden,
                            attended,
                            out,
                        ),
                    }
                }
        }
    }

    /// What follows the first normalization of a layer: query, key and value are projected from
    /// it, in this order, and the first that fails ends the run.
    pub open spec fn projections_give<U: FloatUnit, K: LayerKernels, B: AttentionBackend>(
        &self,
        input: &ModelInput,
        attention: &B,
        layer: nat,
        hidden: GpuBuffer<Half>,
        normed: GpuBuffer<Half>,
        out: Progress,
    ) -> bool {
        let weights = self.stack()[layer as int];
        exists|query: Result<GpuBuffer<Half>, RunnerError>| #[trigger]
            projects::<K>(normed, weights.q_proj, query) && match query {
                Err(e) => out == Some(Err::<GpuBuffer<Half>, RunnerError>(e)),
                Ok(query) => exists|key: Result<GpuBuffer<Half>, RunnerError>| #[trigger]
                    projects::<K>(normed, weights.k_proj, key) && match key {
                        Err(e) => out == Some(Err::<GpuBuffer<Half>, RunnerError>(e)),
                        Ok(key) => exists|value: Result<GpuBuffer<Half>, RunnerError>| #[trigger]
                            projects::<K>(normed, weights.v_proj, value) && match value {
                                Err(e) => out == Some(Err::<GpuBuffer<Half>, RunnerError>(e)),
                                Ok(value) => self.attention_gives::<U, K, B>(
                                    input,
                                    attention,
                                    layer,
                                    hidden,
                                    query,
                                    key,
                                    value,
                                    out,
                                ),
                            },
                    },
            }
    }

    /// Running layer `layer` on a hidden state may come to `out`.
    pub open spec fn layer_gives<U: FloatUnit, K: LayerKernels, B: AttentionBackend>(
        &self,
        input: &ModelInput,
        attention: &B,
        layer: nat,
        hidden: GpuBuffer<Half>,
        out: Progress,
    ) -> bool {
        exists|normed: Result<GpuBuffer<Half>, RunnerError>|
            {
                &&& #[trigger] normalizes::<K>(
                    hidden,
                    self.stack()[layer as int].input_layernorm,
                    self.settings().rms_norm_eps,
                    normed,
                )
                &&& match normed {
                    Err(e) => out == Some(Err::<GpuBuffer<Half>, RunnerError>(e)),
                    Ok(normed) => self.projections_give::<U, K, B>(
                        input,
                        attention,
                        layer,
                        hidden,
                        normed,
                        out,
                    ),
                }
            }
    }

    /// Embedding the tokens and running the first `n` layers may come to `out`.
    pub open spec fn layers_give<U: FloatUnit, K: LayerKernels, B: AttentionBackend>(
        &self,
        input: &ModelInput,
        attention: &B,
        n: nat,
        out: Progress,
    ) -> bool
        decreases n,
    {
        if n == 0 {
            exists|hidden: GpuBuffer<Half>|
                {
                    &&& #[trigger] embeds::<K>(
                        self.embedding(),
                        input.token_ids,
                        self.settings().hidden_size,
                        hidden,
                    )
                    &&& out == Some(Ok::<GpuBuffer<Half>, RunnerError>(hidden))
                }
        } else {
            exists|before: Progress|
                {
                    &&& self.layers_give::<U, K, B>(input, attention, (n - 1) as nat, before)
                    &&& #[trigger] self.continues::<U, K, B>(
                        input,
                        attention,
                        (n - 1) as nat,
                        before,
                        out,
                    )
                }
        }
    }

    /// Running layer `layer` after what came before it. A run that has ended stays ended.
    pub open spec fn continues<U: FloatUnit, K: LayerKernels, B: AttentionBackend>(
        &self,
        input: &ModelInput,
        attention: &B,
        layer: nat,
        before: Progress,
        out: Progress,
    ) -> bool {
        match before {
            Some(Ok(hidden)) => self.layer_gives::<U, K, B>(input, attention, layer, hidden, out),
            _ => out == before,
        }
    }

    /// The last normalization, its result widened, may come to `out`.
    pub open spec fn finish_gives<U: FloatUnit, K: LayerKernels>(
        &self,
        input: &ModelInput,
        hidden: GpuBuffer<Half>,
        out: Result<GpuBuffer<Single>, RunnerError>,
    ) -> bool {
        exists|normed: Result<GpuBuffer<Half>, RunnerError>|
            {
                &&& #[trigger] normalizes::<K>(
                    hidden,
                    self.final_norm(),
                    self.settings().rms_norm_eps,
                    normed,
                )
                &&& match (normed, out) {
                    (Err(e), Err(f)) => e == f,
                    (Ok(normed), Ok(out)) => {
                        &&& out.shape@ == seq![
                            input.token_ids@.len() as usize,
                            self.settings().hidden_size,
                        ]
                        &&& out.data@.len() == normed.data@.len()
                        &&& forall|i: int|
                            0 <= i < out.data@.len() ==> Single::widens::<U>(
                                normed.data@[i],
                                #[trigger] out.data@[i],
                            )
                    },
                    _ => false,
                }
            }
    }

    /// A run of the whole model may come to `out`.
    pub open spec fn forward_gives<U: FloatUnit, K: LayerKernels, B: AttentionBackend>(
        &self,
        input: &ModelInput,
        attention: &B,
        out: Option<Result<GpuBuffer<Single>, RunnerError>>,
    ) -> bool {
        exists|progress: Progress|
            {
                &&& #[trigger] self.layers_give::<U, K, B>(
                    input,
                    attention,
                    self.stack().len(),
                    progress,
                )
                &&& match progress {
                    None => out is None,
                    Some(Err(e)) => out == Some(Err::<GpuBuffer<Single>, RunnerError>(e)),
                    Some(Ok(hidden)) => out matches Some(out) && self.finish_gives::<U, K>(
                        input,
                        hidden,
                        out,
                    ),
                }
            }
    }
}

/// Adding an update to the hidden state, unless it failed.
pub open spec fn residual_gives<K: LayerKernels>(
    hidden: GpuBuffer<Half>,
    update: Result<GpuBuffer<Half>, RunnerError>,
    out: Progress,
) -> bool {
    match update {
        Err(e) => out == Some(Err::<GpuBuffer<Half>, RunnerError>(e)),
        Ok(update) => exists|r: GpuBuffer<Half>| #[trigger]
            accumulates::<K>(hidden, update, r) && out == Some(
                Ok::<GpuBuffer<Half>, RunnerError>(r),
            ),
    }
}

impl LlamaBidirectionalModel {
    /// A query or key tensor, each row turned by the angles of its token's position.
    fn rotate<U: FloatUnit>(&self, input: &ModelInput, heads: usize, x: &GpuBuffer<Half>) -> (r:
        GpuBuffer<Half>)
        requires
            self.wf(),
            heads * self.settings().head_dim <= usize::MAX,
            self.rotatable(input, heads as nat, *x),
        ensures
            self.rotates::<U>(input, heads as nat, *x, r),
    {
        let mut r = x.duplicate();
        proof {
            self.rope.law_complete_tables_cover(
                input.position_ids@,
                input.token_ids@.len(),
                heads as nat,
            );
        }
        self.rope.apply::<U>(
            r.data.as_mut_slice(),
            input.position_ids.as_slice(),
            input.num_tokens(),
            heads,
            self.config.head_dim,
        );
        r
    }

    /// The feed-forward half of a layer.
    fn feed_forward<K: LayerKernels>(&self, layer: usize, hidden: GpuBuffer<Half>) -> (r: Result<
        GpuBuffer<Half>,
        RunnerError,
    >)
        requires
            layer < self.stack().len(),
        ensures
            self.feed_forward_gives::<K>(layer as nat, hidden, Some(r)),
    {
        let weights = &self.layers[layer];
        let normed = K::rms_norm(
            &hidden,
            &weights.post_attention_layernorm,
            self.config.rms_norm_eps,
        );
        assert(normalizes::<K>(
            hidden,
            weights.post_attention_layernorm,
            self.settings().rms_norm_eps,
            normed,
        ));
        match normed {
            Err(e) => Err(e),
            Ok(normed) => {
                let update = K::mlp(
                    &normed,
                    &weights.gate_proj,
                    &weights.up_proj,
                    &weights.down_proj,
                );
                assert(feeds_forward::<K>(normed, *weights, update));
                match update {
                    Err(e) => Err(e),
                    Ok(update) => {
                        let ghost before = hidden;
                        let sum = K::add_residual(hidden, &update);
                        assert(accumulates::<K>(before, update, sum));
                        Ok(sum)
                    },
                }
            },
        }
    }

    /// What follows the attention of a layer.
    fn after_attention<K: LayerKernels>(
        &self,
        layer: usize,
        hidden: GpuBuffer<Half>,
        attended: GpuBuffer<Half>,
    ) -> (r: Result<GpuBuffer<Half>, RunnerError>)
        requires
            layer < self.stack().len(),
        ensures
            self.after_attention_gives::<K>(layer as nat, hidden, attended, Some(r)),
    {
        let update = K::linear(&attended, &self.layers[layer].o_proj, None);
        let ghost projected = update;
        assert(projects::<K>(attended, self.stack()[layer as int].o_proj, projected));
        match update {
            Err(e) => {
                let r: Result<GpuBuffer<Half>, RunnerError> = Err(e);
                assert(residual_gives::<K>(hidden, projected, Some(r)));
                r
            },
            Ok(update) => {
                let ghost before = hidden;
                let sum = K::add_residual(hidden, &update);
                assert(accumulates::<K>(before, update, sum));
                assert(residual_gives::<K>(
                    before,
                    projected,
                    Some(Ok::<GpuBuffer<Half>, RunnerError>(sum)),
                ));
                self.feed_forward::<K>(layer, sum)
            },
        }
    }

    /// What follows the projections of a layer.
    fn attend<U: FloatUnit, K: LayerKernels, B: AttentionBackend>(
        &self,
        input: &ModelInput,
        attention: &B,
        layer: usize,
        hidden: GpuBuffer<Half>,
        query: GpuBuffer<Half>,
        key: GpuBuffer<Half>,
        value: GpuBuffer<Half>,
    ) -> (r: Option<Result<GpuBuffer<Half>, RunnerError>>)
        requires
            self.wf(),
            layer < self.stack().len(),
        ensures
            self.attention_gives::<U, K, B>(
                input,
                attention,
                layer as nat,
                hidden,
                query,
                key,
                value,
                r,
            ),
    {
        let heads: usize = self.config.num_heads;
        let kv_heads: usize = self.config.num_kv_heads;
        let dim: usize = self.config.head_dim;
        let n: usize = input.num_tokens();
        if !self.rope.fits(query.data.len(), input.position_ids.as_slice(), n, heads, dim)
            || !self.rope.fits(key.data.len(), input.position_ids.as_slice(), n, kv_heads, dim) {
            return None;
        }
        let q_rot = self.rotate::<U>(input, heads, &query);
        let k_rot = self.rotate::<U>(input, kv_heads, &key);
        assert(self.rotates::<U>(input, heads as nat, query, q_rot) && self.rotates::<U>(
            input,
            kv_heads as nat,
            key,
            k_rot,
        ));
        if !attention.fits(&q_rot, &k_rot, &value) {
            return None;
        }
        let attended = attention.forward(&q_rot, &k_rot, &value, &input.attention_metadata, layer);
        assert(backend_attends::<B>(
            attention,
            q_rot,
            k_rot,
            value,
            input,
            layer as nat,
            attended,
        ));
        match attended {
            Err(e) => Some(Err(e)),
            Ok(attended) => Some(self.after_attention::<K>(layer, hidden, attended)),
        }
    }

    /// Run one layer.
    fn run_layer<U: FloatUnit, K: LayerKernels, B: AttentionBackend>(
        &self,
        input: &ModelInput,
        attention: &B,
        layer: usize,
        hidden: GpuBuffer<Half>,
    ) -> (r: Option<Result<GpuBuffer<Half>, RunnerError>>)
        requires
            self.wf(),
            layer < self.stack().len(),
        ensures
            self.layer_gives::<U, K, B>(input, attention, layer as nat, hidden, r),
    {
        let weights = &self.layers[layer];
        let normed = K::rms_norm(&hidden, &weights.input_layernorm, self.config.rms_norm_eps);
        assert(normalizes::<K>(
            hidden,
            self.stack()[layer as int].input_layernorm,
            self.settings().rms_norm_eps,
            normed,
        ));
        let normed = match normed {
            Err(e) => return Some(Err(e)),
            Ok(normed) => normed,
        };
        let query = K::linear(&normed, &weights.q_proj, None);
        assert(projects::<K>(normed, weights.q_proj, query));
        let query = match query {
            Err(e) => return Some(Err(e)),
            Ok(query) => query,
        };
        let key = K::linear(&normed, &weights.k_proj, None);
        assert(projects::<K>(normed, weights.k_proj, key));
        let key = match key {
            Err(e) => return Some(Err(e)),
            Ok(key) => key,
        };
        let value = K::linear(&normed, &weights.v_proj, None);
        assert(projects::<K>(normed, weights.v_proj, value));
        let value = match value {
            Err(e) => return Some(Err(e)),
            Ok(value) => value,
        };
        self.attend::<U, K, B>(input, attention, layer, hidden, query, key, value)
    }

    /// The last normalization, its result widened.
    fn finish<U: FloatUnit, K: LayerKernels>(&self, input: &ModelInput, hidden: GpuBuffer<Half>) -> (r:
        Result<GpuBuffer<Single>, RunnerError>)
        ensures
            self.finish_gives::<U, K>(input, hidden, r),
    {
        let normed = K::rms_norm(&hidden, &self.norm_weight, self.config.rms_norm_eps);
        assert(normalizes::<K>(
            hidden,
            self.final_norm(),
            self.settings().rms_norm_eps,
            normed,
        ));
        match normed {
            Err(e) => Err(e),
            Ok(normed) => {
                let mut data: Vec<Single> = Vec::with_capacity(normed.data.len());
                for i in 0..normed.data.len()
                    invariant
                        data@.len() == i,
                        forall|j: int|
                            0 <= j < i ==> Single::widens::<U>(
                                normed.data@[j],
                                #[trigger] data@[j],
                            ),
                {
                    let v = U::widen(normed.data[i]);
                    assert(Single::widens::<U>(normed.data@[i as int], v));
                    data.push(v);
                }
                let mut shape: Vec<usize> = Vec::new();
                shape.push(input.num_tokens());
                shape.push(self.config.hidden_size);
                assert(shape@ == seq![
                    input.token_ids@.len() as usize,
                    self.settings().hidden_size,
                ]);
                Ok(GpuBuffer::from_vec(data, shape))
            },
        }
    }

    /// The last hidden states of a sequence, one row per token, or nothing where a kernel handed on
    /// an operand without the rows that the next step reads.
    pub fn try_forward<U: FloatUnit, K: LayerKernels, B: AttentionBackend>(
        &self,
        input: &ModelInput,
        _cache: &CacheEngine,
        attention: &B,
    ) -> (r: Option<Result<GpuBuffer<Single>, RunnerError>>)
        requires
            self.wf(),
        ensures
            self.forward_gives::<U, K, B>(input, attention, r),
    {
        let embedded = K::embed_tokens(
            &self.embed_tokens,
            &input.token_ids,
            self.config.hidden_size,
        );
        assert(embeds::<K>(
            self.embedding(),
            input.token_ids,
            self.settings().hidden_size,
            embedded,
        ));
        let mut hidden: GpuBuffer<Half> = embedded;
        for layer in 0..self.layers.len()
            invariant
                self.wf(),
                self.stack() == self.layers@,
                self.layers_give::<U, K, B>(
                    input,
                    attention,
                    layer as nat,
                    Some(Ok::<GpuBuffer<Half>, RunnerError>(hidden)),
                ),
        {
            let ghost before: Progress = Some(Ok::<GpuBuffer<Half>, RunnerError>(hidden));
            let next = self.run_layer::<U, K, B>(input, attention, layer, hidden);
            assert(self.continues::<U, K, B>(
                input,
                attention,
                ((layer + 1) - 1) as nat,
                before,
                next,
            ));
            assert(self.layers_give::<U, K, B>(input, attention, (layer + 1) as nat, next));
            match next {
                Some(Ok(state)) => {
                    hidden = state;
                },
                None => {
                    proof {
                        self.lemma_ended_run_stays_ended::<U, K, B>(
                            input,
                            attention,
                            (layer + 1) as nat,
                            self.stack().len(),
                            next,
                        );
                    }
                    return None;
                },
                Some(Err(e)) => {
                    proof {
                        self.lemma_ended_run_stays_ended::<U, K, B>(
                            input,
                            attention,
                            (layer + 1) as nat,
                            self.stack().len(),
                            next,
                        );
                    }
                    return Some(Err(e));
                },
            }
        }
        Some(self.finish::<U, K>(input, hidden))
    }

    /// Once a run has ended, the layers that are left change nothing.
    proof fn lemma_ended_run_stays_ended<U: FloatUnit, K: LayerKernels, B: AttentionBackend>(
        &self,
        input: &ModelInput,
        attention: &B,
        n: nat,
        m: nat,
        out: Progress,
    )
        requires
            n <= m,
            !(out matches Some(Ok(_))),
            self.layers_give::<U, K, B>(input, attention, n, out),
        ensures
            self.layers_give::<U, K, B>(input, attention, m, out),
        decreases m,
    {
        if n < m {
            self.lemma_ended_run_stays_ended::<U, K, B>(input, attention, n, (m - 1) as nat, out);
            assert(self.continues::<U, K, B>(input, attention, (m - 1) as nat, out, out));
        }
    }

    /// The last hidden states of a sequence, one row per token.
    ///
    /// No run may come to an operand without the rows that the next step reads.
    pub fn forward<U: FloatUnit, K: LayerKernels, B: AttentionBackend>(
        &self,
        input: &ModelInput,
        cache: &CacheEngine,
        attention: &B,
    ) -> (r: Result<GpuBuffer<Single>, RunnerError>)
        requires
            self.wf(),
            !self.forward_gives::<U, K, B>(input, attention, None),
        ensures
            self.forward_gives::<U, K, B>(input, attention, Some(r)),
    {
        match self.try_forward::<U, K, B>(input, cache, attention) {
            Some(r) => r,
            None => vstd::pervasive::unreached(),
        }
    }
}

/// The configuration asks for the Llama 3 scaling.
pub open spec fn asks_for_llama3(config: &ModelRunnerConfig) -> bool {
    config.rope_scaling matches Some(rs) && rs.rope_type@ == "llama3"@
}

/// The inverse frequencies come out as many as a head has pairs of components, whatever the
/// arithmetic does, unless the Llama 3 scaling is asked for and its rotary size has another number
/// of even indices.
pub proof fn law_frequencies_fit_the_head<U: FloatUnit>(config: &ModelRunnerConfig, f: Seq<Single>)
    requires
        inv_freq_gives::<U>(config, f),
        asks_for_llama3(config) ==> forall|dim: usize| #[trigger]
            crate::rope_llama3::rotary_dim_gives::<U>(
                config.head_dim,
                config.partial_rotary_factor,
                dim,
            ) ==> (dim as nat + 1) / 2 == config.head_dim as nat / 2,
    ensures
        f.len() == config.head_dim as nat / 2,
{
    if let Some(rs) = config.rope_scaling {
        if rs.rope_type@ == "llama3"@ {
            let max_position = choose|max_position: Single|
                #[trigger] Single::converts::<U>(
                    rs.original_max_position_embeddings,
                    max_position,
                ) && crate::rope_llama3::llama3_gives::<U>(
                    config.head_dim,
                    config.partial_rotary_factor,
                    config.rope_theta,
                    (Llama3Scaling {
                        factor: rs.factor,
                        low_freq_factor: rs.low_freq_factor,
                        high_freq_factor: rs.high_freq_factor,
                        original_max_position_embeddings: max_position,
                    }),
                    f,
                );
            let dim = crate::rope_llama3::law_llama3_count::<U>(
                config.head_dim,
                config.partial_rotary_factor,
                config.rope_theta,
                Llama3Scaling {
                    factor: rs.factor,
                    low_freq_factor: rs.low_freq_factor,
                    high_freq_factor: rs.high_freq_factor,
                    original_max_position_embeddings: max_position,
                },
                f,
            );
        }
    }
}

/// Every tensor of the layer is zeros of its dimensions.
pub open spec fn zero_layer(config: &ModelRunnerConfig, layer: LlamaLayer) -> bool {
    &&& layer.input_layernorm@ == crate::bridge::zero_tensor(seq![config.hidden_size])
    &&& layer.post_attention_layernorm@ == crate::bridge::zero_tensor(seq![config.hidden_size])
    &&& layer.q_proj@ == crate::bridge::zero_tensor(seq![q_features(config), config.hidden_size])
    &&& layer.k_proj@ == crate::bridge::zero_tensor(seq![kv_features(config), config.hidden_size])
    &&& layer.v_proj@ == crate::bridge::zero_tensor(seq![kv_features(config), config.hidden_size])
    &&& layer.o_proj@ == crate::bridge::zero_tensor(seq![config.hidden_size, q_features(config)])
    &&& layer.gate_proj@ == crate::bridge::zero_tensor(seq![config.intermediate_size, config.hidden_size])
    &&& layer.up_proj@ == crate::bridge::zero_tensor(seq![config.intermediate_size, config.hidden_size])
    &&& layer.down_proj@ == crate::bridge::zero_tensor(seq![config.hidden_size, config.intermediate_size])
}

/// A model loaded from no weights is a model of zeros, its projections of the configured sizes.
pub proof fn law_no_weights_make_a_zero_model(
    model: &LlamaBidirectionalModel,
    config: &ModelRunnerConfig,
)
    requires
        model.wf(),
        model.loaded_from(Map::empty(), config),
    ensures
        model.projections_sized(),
        model.embedding()@ == crate::bridge::zero_tensor(
            seq![config.vocab_size, config.hidden_size],
        ),
        forall|layer: int|
            0 <= layer < config.num_layers ==> zero_layer(config, #[trigger] model.stack()[layer]),
        model.final_norm()@ == crate::bridge::zero_tensor(seq![config.hidden_size]),
{
    assert forall|layer: int| 0 <= layer < config.num_layers implies zero_layer(
        config,
        #[trigger] model.stack()[layer],
    ) by {
        assert(layer_loaded(Map::empty(), config, layer as nat, model.stack()[layer]));
    }
}

/// No kernel reports an error.
pub open spec fn kernels_succeed<K: LayerKernels>() -> bool {
    &&& forall|x: GpuBuffer<Half>, w: GpuBuffer<Half>, eps: Single, r: Result<
        GpuBuffer<Half>,
        RunnerError,
    >| #[trigger] normalizes::<K>(x, w, eps, r) ==> r is Ok
    &&& forall|x: GpuBuffer<Half>, w: GpuBuffer<Half>, r: Result<GpuBuffer<Half>, RunnerError>|
        #[trigger] projects::<K>(x, w, r) ==> r is Ok
    &&& forall|x: GpuBuffer<Half>, w: LlamaLayer, r: Result<GpuBuffer<Half>, RunnerError>| #[trigger]
        feeds_forward::<K>(x, w, r) ==> r is Ok
}

/// The attention backend reports no error on this input.
pub open spec fn backend_succeeds<B: AttentionBackend>(attention: &B, input: &ModelInput) -> bool {
    forall|
        q: GpuBuffer<Half>,
        k: GpuBuffer<Half>,
        v: GpuBuffer<Half>,
        layer: nat,
        r: Result<GpuBuffer<Half>, RunnerError>,
    | #[trigger] backend_attends::<B>(attention, q, k, v, input, layer, r) ==> r is Ok
}

impl LlamaBidirectionalModel {
    /// A run that succeeds returns one row of `hidden_size` per token.
    pub proof fn law_output_has_a_row_per_token<
        U: FloatUnit,
        K: LayerKernels,
        B: AttentionBackend,
    >(&self, input: &ModelInput, attention: &B, out: GpuBuffer<Single>)
        requires
            self.forward_gives::<U, K, B>(
                input,
                attention,
                Some(Ok::<GpuBuffer<Single>, RunnerError>(out)),
            ),
        ensures
            out.shape@ == seq![input.token_ids@.len() as usize, self.settings().hidden_size],
    {
    }

    /// The model fails only where a kernel or the attention backend does.
    pub proof fn law_errors_come_from_kernels<
        U: FloatUnit,
        K: LayerKernels,
        B: AttentionBackend,
    >(
        &self,
        input: &ModelInput,
        attention: &B,
        out: Option<Result<GpuBuffer<Single>, RunnerError>>,
    )
        requires
            kernels_succeed::<K>(),
            backend_succeeds::<B>(attention, input),
            self.forward_gives::<U, K, B>(input, attention, out),
        ensures
            out matches Some(r) ==> r is Ok,
    {
        let progress = choose|progress: Progress|
            {
                &&& #[trigger] self.layers_give::<U, K, B>(
                    input,
                    attention,
                    self.stack().len(),
                    progress,
                )
                &&& match progress {
                    None => out is None,
                    Some(Err(e)) => out == Some(Err::<GpuBuffer<Single>, RunnerError>(e)),
                    Some(Ok(hidden)) => out matches Some(out) && self.finish_gives::<U, K>(
                        input,
                        hidden,
                        out,
                    ),
                }
            };
        self.lemma_layers_succeed::<U, K, B>(input, attention, self.stack().len(), progress);
    }

    proof fn lemma_layers_succeed<U: FloatUnit, K: LayerKernels, B: AttentionBackend>(
        &self,
        input: &ModelInput,
        attention: &B,
        n: nat,
        out: Progress,
    )
        requires
            kernels_succeed::<K>(),
            backend_succeeds::<B>(attention, input),
            self.layers_give::<U, K, B>(input, attention, n, out),
        ensures
            out matches Some(r) ==> r is Ok,
        decreases n,
    {
        if n > 0 {
            let before = choose|before: Progress|
                {
                    &&& self.layers_give::<U, K, B>(input, attention, (n - 1) as nat, before)
                    &&& #[trigger] self.continues::<U, K, B>(
                        input,
                        attention,
                        (n - 1) as nat,
                        before,
                        out,
                    )
                };
            self.lemma_layers_succeed::<U, K, B>(input, attention, (n - 1) as nat, before);
        }
    }
}

/// The kernels keep the number of elements: an embedding has `hidden_size` per token, and
/// normalizing or adding leaves as many as there were.
pub open spec fn kernels_keep_sizes<K: LayerKernels>() -> bool {
    &&& forall|table: GpuBuffer<Half>, ids: Vec<u32>, h: usize, r: GpuBuffer<Half>| #[trigger]
        embeds::<K>(table, ids, h, r) ==> r.data@.len() == ids@.len() * h
    &&& forall|x: GpuBuffer<Half>, w: GpuBuffer<Half>, eps: Single, r: GpuBuffer<Half>| #[trigger]
        normalizes::<K>(x, w, eps, Ok(r)) ==> r.data@.len() == x.data@.len()
    &&& forall|hidden: GpuBuffer<Half>, update: GpuBuffer<Half>, r: GpuBuffer<Half>| #[trigger]
        accumulates::<K>(hidden, update, r) ==> r.data@.len() == hidden.data@.len()
}

impl LlamaBidirectionalModel {
    /// With kernels that keep the number of elements, the output fills its dimensions: one row of
    /// `hidden_size` elements per token.
    pub proof fn law_output_fills_its_shape<U: FloatUnit, K: LayerKernels, B: AttentionBackend>(
        &self,
        input: &ModelInput,
        attention: &B,
        out: GpuBuffer<Single>,
    )
        requires
            kernels_keep_sizes::<K>(),
            self.forward_gives::<U, K, B>(
                input,
                attention,
                Some(Ok::<GpuBuffer<Single>, RunnerError>(out)),
            ),
        ensures
            out.shape@ == seq![input.token_ids@.len() as usize, self.settings().hidden_size],
            out.data@.len() == input.token_ids@.len() * self.settings().hidden_size,
    {
        let progress = choose|progress: Progress|
            {
                &&& #[trigger] self.layers_give::<U, K, B>(
                    input,
                    attention,
                    self.stack().len(),
                    progress,
                )
                &&& match progress {
                    None => false,
                    Some(Err(e)) => false,
                    Some(Ok(hidden)) => self.finish_gives::<U, K>(
                        input,
                        hidden,
                        Ok::<GpuBuffer<Single>, RunnerError>(out),
                    ),
                }
            };
        self.lemma_layers_keep_size::<U, K, B>(input, attention, self.stack().len(), progress);
    }

    proof fn lemma_layers_keep_size<U: FloatUnit, K: LayerKernels, B: AttentionBackend>(
        &self,
        input: &ModelInput,
        attention: &B,
        n: nat,
        out: Progress,
    )
        requires
            kernels_keep_sizes::<K>(),
            self.layers_give::<U, K, B>(input, attention, n, out),
        ensures
            out matches Some(Ok(hidden)) ==> hidden.data@.len() == input.token_ids@.len()
                * self.settings().hidden_size,
        decreases n,
    {
        if n > 0 {
            let before = choose|before: Progress|
                {
                    &&& self.layers_give::<U, K, B>(input, attention, (n - 1) as nat, before)
                    &&& #[trigger] self.continues::<U, K, B>(
                        input,
                        attention,
                        (n - 1) as nat,
                        before,
                        out,
                    )
                };
            self.lemma_layers_keep_size::<U, K, B>(input, attention, (n - 1) as nat, before);
        }
    }
}

/// The kernels keep one row per token, and a linear layer has as many outputs as its weight has
/// rows.
pub open spec fn kernels_keep_rows<K: LayerKernels>() -> bool {
    &&& forall|table: GpuBuffer<Half>, ids: Vec<u32>, h: usize, r: GpuBuffer<Half>| #[trigger]
        embeds::<K>(table, ids, h, r) ==> r.rows() == ids@.len()
    &&& forall|x: GpuBuffer<Half>, w: GpuBuffer<Half>, eps: Single, r: GpuBuffer<Half>| #[trigger]
        normalizes::<K>(x, w, eps, Ok(r)) ==> r.rows() == x.rows()
    &&& forall|x: GpuBuffer<Half>, w: GpuBuffer<Half>, r: GpuBuffer<Half>| #[trigger]
        projects::<K>(x, w, Ok(r)) ==> r.rows() == x.rows() && r.data@.len() == x.rows() * w.rows()
    &&& forall|hidden: GpuBuffer<Half>, update: GpuBuffer<Half>, r: GpuBuffer<Half>| #[trigger]
        accumulates::<K>(hidden, update, r) ==> r.rows() == hidden.rows()
}

impl LlamaBidirectionalModel {
    /// The projections of every layer have an output per component of their heads.
    pub open spec fn projections_sized(&self) -> bool {
        let features = self.settings().num_heads * self.settings().head_dim;
        let kv_features = self.settings().num_kv_heads * self.settings().head_dim;
        forall|layer: int|
            #![trigger self.stack()[layer]]
            0 <= layer < self.stack().len() ==> {
                &&& self.stack()[layer].q_proj.rows() == features
                &&& self.stack()[layer].k_proj.rows() == kv_features
                &&& self.stack()[layer].v_proj.rows() == kv_features
            }
    }

    /// With kernels that keep one row per token and projections of the configured sizes, no run on
    /// the CPU attention of the same heads comes to an operand that does not fit.
    pub proof fn law_cpu_attention_always_fits<U: FloatUnit, K: LayerKernels>(
        &self,
        input: &ModelInput,
        attention: &CpuBidirectionalAttention<U>,
    )
        requires
            self.wf(),
            self.projections_sized(),
            kernels_keep_rows::<K>(),
            attention.heads() == self.settings().num_heads,
            attention.kv_heads() == self.settings().num_kv_heads,
            attention.dim() == self.settings().head_dim,
            attention.heads_fit(input.token_ids@.len()),
        ensures
            !self.forward_gives::<U, K, CpuBidirectionalAttention<U>>(input, attention, None),
    {
        assert forall|progress: Progress| #[trigger]
            self.layers_give::<U, K, CpuBidirectionalAttention<U>>(
                input,
                attention,
                self.stack().len(),
                progress,
            ) implies progress is Some by {
            self.lemma_layers_fit::<U, K>(input, attention, self.stack().len(), progress);
        }
    }

    proof fn lemma_layers_fit<U: FloatUnit, K: LayerKernels>(
        &self,
        input: &ModelInput,
        attention: &CpuBidirectionalAttention<U>,
        n: nat,
        out: Progress,
    )
        requires
            self.wf(),
            self.projections_sized(),
            kernels_keep_rows::<K>(),
            attention.heads() == self.settings().num_heads,
            attention.kv_heads() == self.settings().num_kv_heads,
            attention.dim() == self.settings().head_dim,
            attention.heads_fit(input.token_ids@.len()),
            n <= self.stack().len(),
            self.layers_give::<U, K, CpuBidirectionalAttention<U>>(input, attention, n, out),
        ensures
            out is Some,
            out matches Some(Ok(hidden)) ==> hidden.rows() == input.token_ids@.len(),
        decreases n,
    {
        if n > 0 {
            let layer = (n - 1) as nat;
            let before = choose|before: Progress|
                {
                    &&& self.layers_give::<U, K, CpuBidirectionalAttention<U>>(
                        input,
                        attention,
                        (n - 1) as nat,
                        before,
                    )
                    &&& #[trigger] self.continues::<U, K, CpuBidirectionalAttention<U>>(
                        input,
                        attention,
                        (n - 1) as nat,
                        before,
                        out,
                    )
                };
            self.lemma_layers_fit::<U, K>(input, attention, layer, before);
            if let Some(Ok(hidden)) = before {
                self.lemma_layer_fits::<U, K>(input, attention, layer, hidden, out);
            }
        }
    }

    proof fn lemma_layer_fits<U: FloatUnit, K: LayerKernels>(
        &self,
        input: &ModelInput,
        attention: &CpuBidirectionalAttention<U>,
        layer: nat,
        hidden: GpuBuffer<Half>,
        out: Progress,
    )
        requires
            self.wf(),
            self.projections_sized(),
            kernels_keep_rows::<K>(),
            attention.heads() == self.settings().num_heads,
            attention.kv_heads() == self.settings().num_kv_heads,
            attention.dim() == self.settings().head_dim,
            attention.heads_fit(input.token_ids@.len()),
            layer < self.stack().len(),
            hidden.rows() == input.token_ids@.len(),
            self.layer_gives::<U, K, CpuBidirectionalAttention<U>>(
                input,
                attention,
                layer,
                hidden,
                out,
            ),
        ensures
            out is Some,
            out matches Some(Ok(r)) ==> r.rows() == input.token_ids@.len(),
    {
        let rows = input.token_ids@.len();
        let heads = self.settings().num_heads as nat;
        let kv_heads = self.settings().num_kv_heads as nat;
        let dim = self.settings().head_dim as nat;
        crate::rope_llama3::law_layout_is_in_bounds(
            &self.tables(),
            rows * (heads * dim),
            input.position_ids@,
            rows,
            heads,
            dim,
        );
        crate::rope_llama3::law_layout_is_in_bounds(
            &self.tables(),
            rows * (kv_heads * dim),
            input.position_ids@,
            rows,
            kv_heads,
            dim,
        );
        let weights = self.stack()[layer as int];
        assert forall|query: GpuBuffer<Half>, key: GpuBuffer<Half>, value: GpuBuffer<Half>|
            #![trigger self.attention_gives::<U, K, CpuBidirectionalAttention<U>>(input, attention, layer, hidden, query, key, value, out)]
            query.rows() == rows && query.data@.len() == rows * (heads * dim) && key.data@.len()
                == rows * (kv_heads * dim) && value.data@.len() == rows * (kv_heads * dim)
                && self.attention_gives::<U, K, CpuBidirectionalAttention<U>>(
                input,
                attention,
                layer,
                hidden,
                query,
                key,
                value,
                out,
            ) implies out is Some && (out matches Some(Ok(r)) ==> r.rows() == rows) by {
            let (q_rot, k_rot) = choose|q_rot: GpuBuffer<Half>, k_rot: GpuBuffer<Half>|
                #![trigger self.rotates::<U>(input, heads, query, q_rot), self.rotates::<U>(input, kv_heads, key, k_rot)]
                {
                    &&& self.rotates::<U>(input, heads, query, q_rot)
                    &&& self.rotates::<U>(input, kv_heads, key, k_rot)
                    &&& self.rotated_attention_gives::<K, CpuBidirectionalAttention<U>>(
                        input,
                        attention,
                        layer,
                        hidden,
                        q_rot,
                        k_rot,
                        value,
                        out,
                    )
                };
            assert(attention.operands_fit(&q_rot, &k_rot, &value));
        }
    }
}

/// Two inputs of the same tokens, positions and metadata. Whether they are a prefill is left open.
pub open spec fn same_sequence(a: &ModelInput, b: &ModelInput) -> bool {
    &&& a.token_ids@ == b.token_ids@
    &&& a.position_ids@ == b.position_ids@
    &&& a.attention_metadata == b.attention_metadata
}

/// A kernel has one result per operands.
pub open spec fn kernels_have_one_result<K: LayerKernels>() -> bool {
    &&& forall|
        s: GpuBuffer<Half>,
        t: GpuBuffer<Half>,
        a: Vec<u32>,
        b: Vec<u32>,
        h: usize,
        x: GpuBuffer<Half>,
        y: GpuBuffer<Half>,
    |
        s@ == t@ && a@ == b@ && #[trigger] embeds::<K>(s, a, h, x) && #[trigger] embeds::<K>(
            t,
            b,
            h,
            y,
        ) ==> x@ == y@
    &&& forall|
        x: GpuBuffer<Half>,
        y: GpuBuffer<Half>,
        w: GpuBuffer<Half>,
        v: GpuBuffer<Half>,
        eps: Single,
        r: Result<GpuBuffer<Half>, RunnerError>,
        s: Result<GpuBuffer<Half>, RunnerError>,
    |
        x@ == y@ && w@ == v@ && #[trigger] normalizes::<K>(x, w, eps, r)
            && #[trigger] normalizes::<K>(y, v, eps, s) ==> crate::bridge::same_outcome(r, s)
    &&& forall|
        x: GpuBuffer<Half>,
        y: GpuBuffer<Half>,
        w: GpuBuffer<Half>,
        r: Result<GpuBuffer<Half>, RunnerError>,
        s: Result<GpuBuffer<Half>, RunnerError>,
    |
        x@ == y@ && #[trigger] projects::<K>(x, w, r) && #[trigger] projects::<K>(y, w, s)
            ==> crate::bridge::same_outcome(r, s)
    &&& forall|
        x: GpuBuffer<Half>,
        y: GpuBuffer<Half>,
        layer: LlamaLayer,
        r: Result<GpuBuffer<Half>, RunnerError>,
        s: Result<GpuBuffer<Half>, RunnerError>,
    |
        x@ == y@ && #[trigger] feeds_forward::<K>(x, layer, r) && #[trigger] feeds_forward::<K>(
            y,
            layer,
            s,
        ) ==> crate::bridge::same_outcome(r, s)
    &&& forall|
        x: GpuBuffer<Half>,
        y: GpuBuffer<Half>,
        u: GpuBuffer<Half>,
        v: GpuBuffer<Half>,
        r: GpuBuffer<Half>,
        s: GpuBuffer<Half>,
    |
        x@ == y@ && u@ == v@ && #[trigger] accumulates::<K>(x, u, r) && #[trigger] accumulates::<K>(
            y,
            v,
            s,
        ) ==> r@ == s@
}

/// An attention backend takes operands by what they hold, and has one result for them.
pub open spec fn backend_has_one_result<B: AttentionBackend>(attention: &B) -> bool {
    &&& forall|
        q: GpuBuffer<Half>,
        k: GpuBuffer<Half>,
        v: GpuBuffer<Half>,
        q2: GpuBuffer<Half>,
        k2: GpuBuffer<Half>,
        v2: GpuBuffer<Half>,
    |
        q@ == q2@ && k@ == k2@ && v@ == v2@ && #[trigger] attention.accepts(&q, &k, &v)
            ==> #[trigger] attention.accepts(&q2, &k2, &v2)
    &&& forall|
        q: GpuBuffer<Half>,
        k: GpuBuffer<Half>,
        v: GpuBuffer<Half>,
        a: &ModelInput,
        r: Result<GpuBuffer<Half>, RunnerError>,
        q2: GpuBuffer<Half>,
        k2: GpuBuffer<Half>,
        v2: GpuBuffer<Half>,
        b: &ModelInput,
        s: Result<GpuBuffer<Half>, RunnerError>,
        layer: nat,
    |
        q@ == q2@ && k@ == k2@ && v@ == v2@ && a.attention_metadata == b.attention_metadata
            && attention.accepts(&q, &k, &v) && #[trigger] backend_attends::<B>(
            attention,
            q,
            k,
            v,
            a,
            layer,
            r,
        ) && #[trigger] backend_attends::<B>(attention, q2, k2, v2, b, layer, s)
            ==> crate::bridge::same_outcome(r, s)
}

/// The CPU attention has one result per operands where its arithmetic does.
pub proof fn law_cpu_attention_has_one_result<U: FloatUnit>(
    attention: &CpuBidirectionalAttention<U>,
)
    requires
        crate::float::one_result::<U>(),
    ensures
        backend_has_one_result::<CpuBidirectionalAttention<U>>(attention),
{
    assert forall|
        q: GpuBuffer<Half>,
        k: GpuBuffer<Half>,
        v: GpuBuffer<Half>,
        a: &ModelInput,
        r: Result<GpuBuffer<Half>, RunnerError>,
        q2: GpuBuffer<Half>,
        k2: GpuBuffer<Half>,
        v2: GpuBuffer<Half>,
        b: &ModelInput,
        s: Result<GpuBuffer<Half>, RunnerError>,
        layer: nat,
    |
        q@ == q2@ && k@ == k2@ && v@ == v2@ && a.attention_metadata == b.attention_metadata
            && attention.accepts(&q, &k, &v) && #[trigger] backend_attends::<
            CpuBidirectionalAttention<U>,
        >(attention, q, k, v, a, layer, r) && #[trigger] backend_attends::<
            CpuBidirectionalAttention<U>,
        >(attention, q2, k2, v2, b, layer, s) implies crate::bridge::same_outcome(r, s) by {
        attention.law_attention_has_one_result(
            &q,
            &k,
            &v,
            &r->Ok_0,
            &q2,
            &k2,
            &v2,
            &s->Ok_0,
        );
    }
}

/// Two runs have come equally far.
pub open spec fn same_progress(a: Progress, b: Progress) -> bool {
    match (a, b) {
        (None, None) => true,
        (Some(x), Some(y)) => crate::bridge::same_outcome(x, y),
        _ => false,
    }
}

impl LlamaBidirectionalModel {
    /// Neither the cache nor the prefill flag has any influence: with one result per operands of
    /// arithmetic, kernels and attention, two runs on the same sequence return the same.
    pub proof fn law_cache_and_prefill_do_not_matter<
        U: FloatUnit,
        K: LayerKernels,
        B: AttentionBackend,
    >(
        &self,
        a: &ModelInput,
        cache: &CacheEngine,
        b: &ModelInput,
        other_cache: &CacheEngine,
        attention: &B,
        r: Result<GpuBuffer<Single>, RunnerError>,
        s: Result<GpuBuffer<Single>, RunnerError>,
    )
        requires
            self.wf(),
            crate::float::one_result::<U>(),
            kernels_have_one_result::<K>(),
            backend_has_one_result::<B>(attention),
            same_sequence(a, b),
            call_ensures(
                LlamaBidirectionalModel::forward::<U, K, B>,
                (self, a, cache, attention),
                r,
            ),
            call_ensures(
                LlamaBidirectionalModel::forward::<U, K, B>,
                (self, b, other_cache, attention),
                s,
            ),
        ensures
            crate::bridge::same_outcome(r, s),
    {
        self.law_a_run_has_one_result::<U, K, B>(a, b, attention, Some(r), Some(s));
    }

    /// With one result per operands of arithmetic, kernels and attention, the model has one result
    /// per sequence.
    pub proof fn law_a_run_has_one_result<U: FloatUnit, K: LayerKernels, B: AttentionBackend>(
        &self,
        a: &ModelInput,
        b: &ModelInput,
        attention: &B,
        r: Option<Result<GpuBuffer<Single>, RunnerError>>,
        s: Option<Result<GpuBuffer<Single>, RunnerError>>,
    )
        requires
            self.wf(),
            crate::float::one_result::<U>(),
            kernels_have_one_result::<K>(),
            backend_has_one_result::<B>(attention),
            same_sequence(a, b),
            self.forward_gives::<U, K, B>(a, attention, r),
            self.forward_gives::<U, K, B>(b, attention, s),
        ensures
            match (r, s) {
                (None, None) => true,
                (Some(x), Some(y)) => crate::bridge::same_outcome(x, y),
                _ => false,
            },
    {
        let n = self.stack().len();
        let p = choose|progress: Progress|
            {
                &&& #[trigger] self.layers_give::<U, K, B>(a, attention, n, progress)
                &&& match progress {
                    None => r is None,
                    Some(Err(e)) => r == Some(Err::<GpuBuffer<Single>, RunnerError>(e)),
                    Some(Ok(hidden)) => r matches Some(out) && self.finish_gives::<U, K>(
                        a,
                        hidden,
                        out,
                    ),
                }
            };
        let q = choose|progress: Progress|
            {
                &&& #[trigger] self.layers_give::<U, K, B>(b, attention, n, progress)
                &&& match progress {
                    None => s is None,
                    Some(Err(e)) => s == Some(Err::<GpuBuffer<Single>, RunnerError>(e)),
                    Some(Ok(hidden)) => s matches Some(out) && self.finish_gives::<U, K>(
                        b,
                        hidden,
                        out,
                    ),
                }
            };
        self.lemma_layers_have_one_result::<U, K, B>(a, b, attention, n, p, q);
        if let (Some(Ok(x)), Some(Ok(y))) = (p, q) {
            self.lemma_finish_has_one_result::<U, K>(a, b, x, y, r->0, s->0);
        }
    }

    proof fn lemma_finish_has_one_result<U: FloatUnit, K: LayerKernels>(
        &self,
        a: &ModelInput,
        b: &ModelInput,
        x: GpuBuffer<Half>,
        y: GpuBuffer<Half>,
        r: Result<GpuBuffer<Single>, RunnerError>,
        s: Result<GpuBuffer<Single>, RunnerError>,
    )
        requires
            crate::float::one_result::<U>(),
            kernels_have_one_result::<K>(),
            same_sequence(a, b),
            x@ == y@,
            self.finish_gives::<U, K>(a, x, r),
            self.finish_gives::<U, K>(b, y, s),
        ensures
            crate::bridge::same_outcome(r, s),
    {
        if let (Ok(out), Ok(other)) = (r, s) {
            assert forall|i: int| 0 <= i < out.data@.len() implies out.data@[i]
                == other.data@[i] by {}
            assert(out.data@ =~= other.data@);
        }
    }

    proof fn lemma_layers_have_one_result<U: FloatUnit, K: LayerKernels, B: AttentionBackend>(
        &self,
        a: &ModelInput,
        b: &ModelInput,
        attention: &B,
        n: nat,
        p: Progress,
        q: Progress,
    )
        requires
            self.wf(),
            crate::float::one_result::<U>(),
            kernels_have_one_result::<K>(),
            backend_has_one_result::<B>(attention),
            same_sequence(a, b),
            self.layers_give::<U, K, B>(a, attention, n, p),
            self.layers_give::<U, K, B>(b, attention, n, q),
        ensures
            same_progress(p, q),
        decreases n,
    {
        if n > 0 {
            let before = choose|before: Progress|
                {
                    &&& self.layers_give::<U, K, B>(a, attention, (n - 1) as nat, before)
                    &&& #[trigger] self.continues::<U, K, B>(
                        a,
                        attention,
                        (n - 1) as nat,
                        before,
                        p,
                    )
                };
            let other = choose|before: Progress|
                {
                    &&& self.layers_give::<U, K, B>(b, attention, (n - 1) as nat, before)
                    &&& #[trigger] self.continues::<U, K, B>(
                        b,
                        attention,
                        (n - 1) as nat,
                        before,
                        q,
                    )
                };
            self.lemma_layers_have_one_result::<U, K, B>(
                a,
                b,
                attention,
                (n - 1) as nat,
                before,
                other,
            );
            if let (Some(Ok(x)), Some(Ok(y))) = (before, other) {
                self.lemma_layer_has_one_result::<U, K, B>(
                    a,
                    b,
                    attention,
                    (n - 1) as nat,
                    x,
                    y,
                    p,
                    q,
                );
            }
        }
    }

    proof fn lemma_layer_has_one_result<U: FloatUnit, K: LayerKernels, B: AttentionBackend>(
        &self,
        a: &ModelInput,
        b: &ModelInput,
        attention: &B,
        layer: nat,
        x: GpuBuffer<Half>,
        y: GpuBuffer<Half>,
        p: Progress,
        q: Progress,
    )
        requires
            self.wf(),
            crate::float::one_result::<U>(),
            kernels_have_one_result::<K>(),
            backend_has_one_result::<B>(attention),
            same_sequence(a, b),
            x@ == y@,
            self.layer_gives::<U, K, B>(a, attention, layer, x, p),
            self.layer_gives::<U, K, B>(b, attention, layer, y, q),
        ensures
            same_progress(p, q),
    {
        assert forall|
            q1: GpuBuffer<Half>,
            k1: GpuBuffer<Half>,
            v1: GpuBuffer<Half>,
            q2: GpuBuffer<Half>,
            k2: GpuBuffer<Half>,
            v2: GpuBuffer<Half>,
        |
            q1@ == q2@ && k1@ == k2@ && v1@ == v2@ && #[trigger] self.attention_gives::<U, K, B>(
                a,
                attention,
                layer,
                x,
                q1,
                k1,
                v1,
                p,
            ) && #[trigger] self.attention_gives::<U, K, B>(
                b,
                attention,
                layer,
                y,
                q2,
                k2,
                v2,
                q,
            ) implies same_progress(p, q) by {
            self.lemma_attention_has_one_result::<U, K, B>(
                a,
                b,
                attention,
                layer,
                x,
                y,
                q1,
                k1,
                v1,
                q2,
                k2,
                v2,
                p,
                q,
            );
        }
        self.lemma_projections_have_one_result::<U, K, B>(a, b, attention, layer, x, y, p, q);
    }

    /// The part of a layer before its attention.
    proof fn lemma_projections_have_one_result<U: FloatUnit, K: LayerKernels, B: AttentionBackend>(
        &self,
        a: &ModelInput,
        b: &ModelInput,
        attention: &B,
        layer: nat,
        x: GpuBuffer<Half>,
        y: GpuBuffer<Half>,
        p: Progress,
        q: Progress,
    )
        requires
            kernels_have_one_result::<K>(),
            x@ == y@,
            self.layer_gives::<U, K, B>(a, attention, layer, x, p),
            self.layer_gives::<U, K, B>(b, attention, layer, y, q),
            forall|
                q1: GpuBuffer<Half>,
                k1: GpuBuffer<Half>,
                v1: GpuBuffer<Half>,
                q2: GpuBuffer<Half>,
                k2: GpuBuffer<Half>,
                v2: GpuBuffer<Half>,
            |
                q1@ == q2@ && k1@ == k2@ && v1@ == v2@ && #[trigger] self.attention_gives::<
                    U,
                    K,
                    B,
                >(a, attention, layer, x, q1, k1, v1, p) && #[trigger] self.attention_gives::<
                    U,
                    K,
                    B,
                >(b, attention, layer, y, q2, k2, v2, q) ==> same_progress(p, q),
        ensures
            same_progress(p, q),
    {
    }

    proof fn lemma_attention_has_one_result<U: FloatUnit, K: LayerKernels, B: AttentionBackend>(
        &self,
        a: &ModelInput,
        b: &ModelInput,
        attention: &B,
        layer: nat,
        x: GpuBuffer<Half>,
        y: GpuBuffer<Half>,
        q1: GpuBuffer<Half>,
        k1: GpuBuffer<Half>,
        v1: GpuBuffer<Half>,
        q2: GpuBuffer<Half>,
        k2: GpuBuffer<Half>,
        v2: GpuBuffer<Half>,
        p: Progress,
        q: Progress,
    )
        requires
            self.wf(),
            crate::float::one_result::<U>(),
            kernels_have_one_result::<K>(),
            backend_has_one_result::<B>(attention),
            same_sequence(a, b),
            x@ == y@,
            q1@ == q2@,
            k1@ == k2@,
            v1@ == v2@,
            self.attention_gives::<U, K, B>(a, attention, layer, x, q1, k1, v1, p),
            self.attention_gives::<U, K, B>(b, attention, layer, y, q2, k2, v2, q),
        ensures
            same_progress(p, q),
    {
        let heads = self.settings().num_heads as nat;
        let kv_heads = self.settings().num_kv_heads as nat;
        assert(q1.data@ == q2.data@ && k1.data@ == k2.data@) by {
            assert(q1@.data == q2@.data && k1@.data == k2@.data);
        }
        assert(self.rotatable(a, heads, q1) == self.rotatable(b, heads, q2));
        assert(self.rotatable(a, kv_heads, k1) == self.rotatable(b, kv_heads, k2));
        if self.rotatable(a, heads, q1) && self.rotatable(a, kv_heads, k1) {
            let (qr, kr) = choose|q_rot: GpuBuffer<Half>, k_rot: GpuBuffer<Half>|
                #![trigger self.rotates::<U>(a, heads, q1, q_rot), self.rotates::<U>(a, kv_heads, k1, k_rot)]
                {
                    &&& self.rotates::<U>(a, heads, q1, q_rot)
                    &&& self.rotates::<U>(a, kv_heads, k1, k_rot)
                    &&& self.rotated_attention_gives::<K, B>(
                        a,
                        attention,
                        layer,
                        x,
                        q_rot,
                        k_rot,
                        v1,
                        p,
                    )
                };
            let (qs, ks) = choose|q_rot: GpuBuffer<Half>, k_rot: GpuBuffer<Half>|
                #![trigger self.rotates::<U>(b, heads, q2, q_rot), self.rotates::<U>(b, kv_heads, k2, k_rot)]
                {
                    &&& self.rotates::<U>(b, heads, q2, q_rot)
                    &&& self.rotates::<U>(b, kv_heads, k2, k_rot)
                    &&& self.rotated_attention_gives::<K, B>(
                        b,
                        attention,
                        layer,
                        y,
                        q_rot,
                        k_rot,
                        v2,
                        q,
                    )
                };
            self.lemma_rotate_has_one_result::<U>(a, b, heads, q1, q2, qr, qs);
            self.lemma_rotate_has_one_result::<U>(a, b, kv_heads, k1, k2, kr, ks);
            self.lemma_rotated_attention_has_one_result::<K, B>(
                a,
                b,
                attention,
                layer,
                x,
                y,
                qr,
                kr,
                v1,
                qs,
                ks,
                v2,
                p,
                q,
            );
        }
    }

    proof fn lemma_rotate_has_one_result<U: FloatUnit>(
        &self,
        a: &ModelInput,
        b: &ModelInput,
        heads: nat,
        x: GpuBuffer<Half>,
        y: GpuBuffer<Half>,
        r: GpuBuffer<Half>,
        s: GpuBuffer<Half>,
    )
        requires
            self.wf(),
            crate::float::one_result::<U>(),
            same_sequence(a, b),
            x@ == y@,
            self.rotates::<U>(a, heads, x, r),
            self.rotates::<U>(b, heads, y, s),
        ensures
            r@ == s@,
    {
        assert(x@.data == y@.data && x@.shape == y@.shape);
        crate::rope_llama3::law_rotation_has_one_result::<U>(
            &self.tables(),
            x.data@,
            a.position_ids@,
            heads,
            self.settings().head_dim as nat,
            crate::rope_llama3::rotated_rows(a.position_ids@, a.token_ids@.len()),
            r.data@,
            s.data@,
        );
    }

    proof fn lemma_rotated_attention_has_one_result<K: LayerKernels, B: AttentionBackend>(
        &self,
        a: &ModelInput,
        b: &ModelInput,
        attention: &B,
        layer: nat,
        x: GpuBuffer<Half>,
        y: GpuBuffer<Half>,
        q1: GpuBuffer<Half>,
        k1: GpuBuffer<Half>,
        v1: GpuBuffer<Half>,
        q2: GpuBuffer<Half>,
        k2: GpuBuffer<Half>,
        v2: GpuBuffer<Half>,
        p: Progress,
        q: Progress,
    )
        requires
            kernels_have_one_result::<K>(),
            backend_has_one_result::<B>(attention),
            same_sequence(a, b),
            x@ == y@,
            q1@ == q2@,
            k1@ == k2@,
            v1@ == v2@,
            self.rotated_attention_gives::<K, B>(a, attention, layer, x, q1, k1, v1, p),
            self.rotated_attention_gives::<K, B>(b, attention, layer, y, q2, k2, v2, q),
        ensures
            same_progress(p, q),
    {
        assert(attention.accepts(&q1, &k1, &v1) == attention.accepts(&q2, &k2, &v2));
        if attention.accepts(&q1, &k1, &v1) {
            assert forall|r: GpuBuffer<Half>, s: GpuBuffer<Half>|
                r@ == s@ && #[trigger] self.after_attention_gives::<K>(layer, x, r, p)
                    && #[trigger] self.after_attention_gives::<K>(
                    layer,
                    y,
                    s,
                    q,
                ) implies same_progress(p, q) by {
                self.lemma_after_attention_has_one_result::<K>(layer, x, y, r, s, p, q);
            }
        }
    }

    proof fn lemma_after_attention_has_one_result<K: LayerKernels>(
        &self,
        layer: nat,
        x: GpuBuffer<Half>,
        y: GpuBuffer<Half>,
        r: GpuBuffer<Half>,
        s: GpuBuffer<Half>,
        p: Progress,
        q: Progress,
    )
        requires
            kernels_have_one_result::<K>(),
            x@ == y@,
            r@ == s@,
            self.after_attention_gives::<K>(layer, x, r, p),
            self.after_attention_gives::<K>(layer, y, s, q),
        ensures
            same_progress(p, q),
    {
    }
}

/// What kernels do with zeros: a linear layer of zeros maps finite rows to zeros, a feed-forward
/// layer with a down projection of zeros gives zeros unless something on the way is not finite,
/// adding zeros keeps finite values, and normalizing does not see the sign of a zero.
pub open spec fn kernels_ignore_zeros<K: LayerKernels>() -> bool {
    &&& forall|x: GpuBuffer<Half>, w: GpuBuffer<Half>, u: GpuBuffer<Half>|
        w.zero_valued() && x.finite_valued() && #[trigger] projects::<K>(x, w, Ok(u))
            ==> u.zero_valued()
    &&& forall|x: GpuBuffer<Half>, layer: LlamaLayer, u: GpuBuffer<Half>|
        layer.down_proj.zero_valued() && u.finite_valued() && #[trigger] feeds_forward::<K>(
            x,
            layer,
            Ok(u),
        ) ==> u.zero_valued()
    &&& forall|x: GpuBuffer<Half>, u: GpuBuffer<Half>, r: GpuBuffer<Half>|
        u.zero_valued() && x.finite_valued() && #[trigger] accumulates::<K>(x, u, r)
            ==> r.same_values(x)
    &&& forall|
        x: GpuBuffer<Half>,
        y: GpuBuffer<Half>,
        w: GpuBuffer<Half>,
        v: GpuBuffer<Half>,
        eps: Single,
        r: GpuBuffer<Half>,
        s: GpuBuffer<Half>,
    |
        x.same_values(y) && x.finite_valued() && w@ == v@ && #[trigger] normalizes::<K>(
            x,
            w,
            eps,
            Ok(r),
        ) && #[trigger] normalizes::<K>(y, v, eps, Ok(s)) ==> r.same_values(s)
}

/// The attention backend returns finite tensors on this input.
pub open spec fn backend_returns_finite<B: AttentionBackend>(
    attention: &B,
    input: &ModelInput,
) -> bool {
    forall|
        q: GpuBuffer<Half>,
        k: GpuBuffer<Half>,
        v: GpuBuffer<Half>,
        layer: nat,
        r: GpuBuffer<Half>,
    | #[trigger] backend_attends::<B>(attention, q, k, v, input, layer, Ok(r)) ==> r.finite_valued()
}

impl LlamaBidirectionalModel {
    /// The output and the down projection of every layer are zeros.
    pub open spec fn zero_projections(&self) -> bool {
        forall|layer: int|
            0 <= layer < self.stack().len() ==> {
                &&& (#[trigger] self.stack()[layer]).o_proj.zero_valued()
                &&& self.stack()[layer].down_proj.zero_valued()
            }
    }

    /// The embedded tokens may come out as `x`, signs of zeros aside.
    pub open spec fn embeds_as<K: LayerKernels>(
        &self,
        input: &ModelInput,
        x: GpuBuffer<Half>,
    ) -> bool {
        exists|e: GpuBuffer<Half>|
            {
                &&& #[trigger] embeds::<K>(
                    self.embedding(),
                    input.token_ids,
                    self.settings().hidden_size,
                    e,
                )
                &&& x.same_values(e)
            }
    }

    /// The embedded tokens are finite, and so is what the feed-forward layers make of them.
    pub open spec fn stays_finite<K: LayerKernels>(&self, input: &ModelInput) -> bool {
        forall|x: GpuBuffer<Half>| #[trigger]
            self.embeds_as::<K>(input, x) ==> {
                &&& x.finite_valued()
                &&& forall|layer: int, normed: GpuBuffer<Half>, u: GpuBuffer<Half>|
                    #![trigger feeds_forward::<K>(normed, self.stack()[layer], Ok(u))]
                    0 <= layer < self.stack().len() && normalizes::<K>(
                        x,
                        self.stack()[layer].post_attention_layernorm,
                        self.settings().rms_norm_eps,
                        Ok(normed),
                    ) && feeds_forward::<K>(normed, self.stack()[layer], Ok(u))
                        ==> u.finite_valued()
            }
    }

    /// A layer only adds to the hidden state: with output and down projections of zeros it leaves
    /// it as it was.
    proof fn lemma_zero_layer_keeps_the_state<U: FloatUnit, K: LayerKernels, B: AttentionBackend>(
        &self,
        input: &ModelInput,
        attention: &B,
        layer: nat,
        hidden: GpuBuffer<Half>,
        out: GpuBuffer<Half>,
    )
        requires
            layer < self.stack().len(),
            kernels_ignore_zeros::<K>(),
            self.zero_projections(),
            self.stays_finite::<K>(input),
            backend_returns_finite::<B>(attention, input),
            self.embeds_as::<K>(input, hidden),
            self.layer_gives::<U, K, B>(
                input,
                attention,
                layer,
                hidden,
                Some(Ok::<GpuBuffer<Half>, RunnerError>(out)),
            ),
        ensures
            self.embeds_as::<K>(input, out),
    {
        let done: Progress = Some(Ok::<GpuBuffer<Half>, RunnerError>(out));
        let weights = self.stack()[layer as int];
        assert forall|attended: GpuBuffer<Half>|
            attended.finite_valued() && #[trigger] self.after_attention_gives::<K>(
                layer,
                hidden,
                attended,
                done,
            ) implies self.embeds_as::<K>(input, out) by {
            let (update, mid) = choose|update: Result<GpuBuffer<Half>, RunnerError>, mid: Progress|
                #![trigger residual_gives::<K>(hidden, update, mid)]
                {
                    &&& projects::<K>(attended, self.stack()[layer as int].o_proj, update)
                    &&& residual_gives::<K>(hidden, update, mid)
                    &&& match mid {
                        Some(Ok(hidden)) => self.feed_forward_gives::<K>(layer, hidden, done),
                        _ => done == mid,
                    }
                };
            let u = update->Ok_0;
            let m = mid->0->Ok_0;
            assert(projects::<K>(attended, weights.o_proj, Ok(u)));
            assert(m.same_values(hidden));
            self.lemma_same_values_embed::<K>(input, hidden, m);
            let normed = choose|normed: Result<GpuBuffer<Half>, RunnerError>|
                {
                    &&& #[trigger] normalizes::<K>(
                        m,
                        weights.post_attention_layernorm,
                        self.settings().rms_norm_eps,
                        normed,
                    )
                    &&& match normed {
                        Err(e) => done == Some(Err::<GpuBuffer<Half>, RunnerError>(e)),
                        Ok(normed) => exists|update: Result<GpuBuffer<Half>, RunnerError>|
                            {
                                &&& #[trigger] feeds_forward::<K>(normed, weights, update)
                                &&& residual_gives::<K>(m, update, done)
                            },
                    }
                };
            let n = normed->Ok_0;
            let fed = choose|update: Result<GpuBuffer<Half>, RunnerError>|
                {
                    &&& #[trigger] feeds_forward::<K>(n, weights, update)
                    &&& residual_gives::<K>(m, update, done)
                };
            let v = fed->Ok_0;
            assert(feeds_forward::<K>(n, self.stack()[layer as int], Ok(v)));
            assert(accumulates::<K>(m, v, out));
            assert(out.same_values(m));
            self.lemma_same_values_embed::<K>(input, m, out);
        }
        self.lemma_layer_reaches_after_attention::<U, K, B>(
            input,
            attention,
            layer,
            hidden,
            done,
        );
    }

    /// A layer that comes to a hidden state passed through its attention.
    proof fn lemma_layer_reaches_after_attention<
        U: FloatUnit,
        K: LayerKernels,
        B: AttentionBackend,
    >(
        &self,
        input: &ModelInput,
        attention: &B,
        layer: nat,
        hidden: GpuBuffer<Half>,
        done: Progress,
    )
        requires
            done matches Some(Ok(_)),
            backend_returns_finite::<B>(attention, input),
            self.layer_gives::<U, K, B>(input, attention, layer, hidden, done),
        ensures
            exists|attended: GpuBuffer<Half>|
                attended.finite_valued() && #[trigger] self.after_attention_gives::<K>(
                    layer,
                    hidden,
                    attended,
                    done,
                ),
    {
    }

    /// Numerically equal tensors embed the same tokens.
    proof fn lemma_same_values_embed<K: LayerKernels>(
        &self,
        input: &ModelInput,
        x: GpuBuffer<Half>,
        y: GpuBuffer<Half>,
    )
        requires
            self.embeds_as::<K>(input, x),
            y.same_values(x),
        ensures
            self.embeds_as::<K>(input, y),
    {
        let e = choose|e: GpuBuffer<Half>|
            {
                &&& #[trigger] embeds::<K>(
                    self.embedding(),
                    input.token_ids,
                    self.settings().hidden_size,
                    e,
                )
                &&& x.same_values(e)
            };
        assert(y.same_values(e));
    }

    proof fn lemma_zero_layers_keep_the_state<U: FloatUnit, K: LayerKernels, B: AttentionBackend>(
        &self,
        input: &ModelInput,
        attention: &B,
        n: nat,
        out: Progress,
    )
        requires
            n <= self.stack().len(),
            kernels_ignore_zeros::<K>(),
            self.zero_projections(),
            self.stays_finite::<K>(input),
            backend_returns_finite::<B>(attention, input),
            self.layers_give::<U, K, B>(input, attention, n, out),
        ensures
            out matches Some(Ok(hidden)) ==> self.embeds_as::<K>(input, hidden),
        decreases n,
    {
        if n == 0 {
            let e = out->0->Ok_0;
            assert(embeds::<K>(
                self.embedding(),
                input.token_ids,
                self.settings().hidden_size,
                e,
            ) && e.same_values(e));
        } else {
            let before = choose|before: Progress|
                {
                    &&& self.layers_give::<U, K, B>(input, attention, (n - 1) as nat, before)
                    &&& #[trigger] self.continues::<U, K, B>(
                        input,
                        attention,
                        (n - 1) as nat,
                        before,
                        out,
                    )
                };
            self.lemma_zero_layers_keep_the_state::<U, K, B>(
                input,
                attention,
                (n - 1) as nat,
                before,
            );
            if let (Some(Ok(hidden)), Some(Ok(next))) = (before, out) {
                self.lemma_zero_layer_keeps_the_state::<U, K, B>(
                    input,
                    attention,
                    (n - 1) as nat,
                    hidden,
                    next,
                );
            }
        }
    }

    /// A model without layers normalizes the embedded tokens and widens the result. It does not call
    /// the attention backend.
    pub proof fn law_no_layers_normalize_the_embedding<
        U: FloatUnit,
        K: LayerKernels,
        B: AttentionBackend,
    >(
        &self,
        input: &ModelInput,
        attention: &B,
        out: Option<Result<GpuBuffer<Single>, RunnerError>>,
    ) -> (e: GpuBuffer<Half>)
        requires
            self.stack().len() == 0,
            self.forward_gives::<U, K, B>(input, attention, out),
        ensures
            embeds::<K>(self.embedding(), input.token_ids, self.settings().hidden_size, e),
            out matches Some(r) && self.finish_gives::<U, K>(input, e, r),
    {
        choose|e: GpuBuffer<Half>|
            {
                &&& #[trigger] embeds::<K>(
                    self.embedding(),
                    input.token_ids,
                    self.settings().hidden_size,
                    e,
                )
                &&& out matches Some(r) && self.finish_gives::<U, K>(input, e, r)
            }
    }

    /// Each layer only adds its attention and feed-forward outputs to the residual stream: with
    /// output and down projections of zeros, the model returns numerically what the same model
    /// without layers does.
    pub proof fn law_zero_projections_leave_the_residual_stream<
        U: FloatUnit,
        K: LayerKernels,
        B: AttentionBackend,
    >(
        &self,
        bare: &Self,
        input: &ModelInput,
        attention: &B,
        out: GpuBuffer<Single>,
        bare_out: GpuBuffer<Single>,
    )
        requires
            crate::float::one_result::<U>(),
            crate::float::exact_at_zero::<U>(),
            kernels_have_one_result::<K>(),
            kernels_ignore_zeros::<K>(),
            backend_returns_finite::<B>(attention, input),
            self.zero_projections(),
            self.stays_finite::<K>(input),
            bare.stack().len() == 0,
            bare.settings().hidden_size == self.settings().hidden_size,
            bare.settings().rms_norm_eps == self.settings().rms_norm_eps,
            bare.embedding()@ == self.embedding()@,
            bare.final_norm()@ == self.final_norm()@,
            self.forward_gives::<U, K, B>(
                input,
                attention,
                Some(Ok::<GpuBuffer<Single>, RunnerError>(out)),
            ),
            bare.forward_gives::<U, K, B>(
                input,
                attention,
                Some(Ok::<GpuBuffer<Single>, RunnerError>(bare_out)),
            ),
        ensures
            out.shape@ == bare_out.shape@,
            out.data@.len() == bare_out.data@.len(),
            forall|i: int|
                0 <= i < out.data@.len() ==> (#[trigger] out.data@[i]).same_value(
                    bare_out.data@[i],
                ),
    {
        let r = Ok::<GpuBuffer<Single>, RunnerError>(out);
        let s = Ok::<GpuBuffer<Single>, RunnerError>(bare_out);
        let progress = choose|progress: Progress|
            {
                &&& #[trigger] self.layers_give::<U, K, B>(
                    input,
                    attention,
                    self.stack().len(),
                    progress,
                )
                &&& match progress {
                    None => false,
                    Some(Err(e)) => false,
                    Some(Ok(hidden)) => self.finish_gives::<U, K>(input, hidden, r),
                }
            };
        self.lemma_zero_layers_keep_the_state::<U, K, B>(
            input,
            attention,
            self.stack().len(),
            progress,
        );
        let hidden = progress->0->Ok_0;
        let e = choose|e: GpuBuffer<Half>|
            {
                &&& #[trigger] embeds::<K>(
                    self.embedding(),
                    input.token_ids,
                    self.settings().hidden_size,
                    e,
                )
                &&& hidden.same_values(e)
            };
        let f = bare.law_no_layers_normalize_the_embedding::<U, K, B>(input, attention, Some(s));
        assert(e@ == f@);
        assert(e@.data == f@.data && e@.shape == f@.shape);
        assert(hidden.same_values(f));
        let a = choose|normed: Result<GpuBuffer<Half>, RunnerError>|
            {
                &&& #[trigger] normalizes::<K>(
                    hidden,
                    self.final_norm(),
                    self.settings().rms_norm_eps,
                    normed,
                )
                &&& match normed {
                    Err(_) => false,
                    Ok(normed) => {
                        &&& out.data@.len() == normed.data@.len()
                        &&& forall|i: int|
                            0 <= i < out.data@.len() ==> Single::widens::<U>(
                                normed.data@[i],
                                #[trigger] out.data@[i],
                            )
                    },
                }
            };
        let b = choose|normed: Result<GpuBuffer<Half>, RunnerError>|
            {
                &&& #[trigger] normalizes::<K>(
                    f,
                    bare.final_norm(),
                    bare.settings().rms_norm_eps,
                    normed,
                )
                &&& match normed {
                    Err(_) => false,
                    Ok(normed) => {
                        &&& bare_out.data@.len() == normed.data@.len()
                        &&& forall|i: int|
                            0 <= i < bare_out.data@.len() ==> Single::widens::<U>(
                                normed.data@[i],
                                #[trigger] bare_out.data@[i],
                            )
                    },
                }
            };
        let x = a->Ok_0;
        let y = b->Ok_0;
        assert(normalizes::<K>(hidden, self.final_norm(), self.settings().rms_norm_eps, Ok(x)));
        assert(normalizes::<K>(f, bare.final_norm(), bare.settings().rms_norm_eps, Ok(y)));
        assert(x.same_values(y));
        assert forall|i: int| 0 <= i < out.data@.len() implies (
        #[trigger] out.data@[i]).same_value(bare_out.data@[i]) by {
            assert(Single::widens::<U>(x.data@[i], out.data@[i]));
            assert(Single::widens::<U>(y.data@[i], bare_out.data@[i]));
        }
    }
}

} // verus!
