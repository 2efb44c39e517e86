//! What loading and running the encoder come to.
use crate::architectures::llama;
use crate::architectures::llama::LlamaLayer;
use crate::architectures::llama_bidirectional;
use crate::architectures::llama_bidirectional::LlamaBidirectionalModel;
use crate::bridge;
use crate::bridge::{AttentionBackend, CacheEngine, GpuBuffer, ModelWeights, RunnerError, Tensor};
use crate::exact;
use crate::exact::Reading;
use crate::float::{FloatUnit, Half, Single};
use crate::input::ModelInput;
use crate::layers::LayerKernels;
use crate::rope_llama3::Llama3Scaling;
use crate::rope_meaning;
use crate::runner::ModelRunnerConfig;
use vstd::prelude::*;

verus! {

/// Where a tensor comes from: it is the one saved under its name, or zeros of the given dimensions
/// where none is.
pub open spec fn comes_from(
    weights: Map<Seq<char>, Tensor<Half>>,
    name: Seq<char>,
    shape: Seq<usize>,
    tensor: Tensor<Half>,
) -> bool {
    if weights.contains_key(name) {
        tensor == weights[name]
    } else {
        &&& tensor.shape == shape
        &&& tensor.data.len() == (if shape.len() == 1 {
            shape[0] as int
        } else {
            shape[0] * shape[1]
        })
        &&& forall|i: int| 0 <= i < tensor.data.len() ==> (#[trigger] tensor.data[i]).bits == 0
    }
}

proof fn lemma_comes_from(
    weights: Map<Seq<char>, Tensor<Half>>,
    name: Seq<char>,
    shape: Seq<usize>,
)
    requires
        1 <= shape.len() <= 2,
    ensures
        comes_from(weights, name, shape, llama::weight_or_zeros(weights, name, shape)),
{
    llama::law_zeros_fill_their_shape(shape);
}

/// What loading does: every tensor of every layer, the embedding and the last norm come from the
/// names they are saved under, in the sizes of the configuration, and the settings are those of the
/// configuration.
pub proof fn law_every_tensor_reaches_its_place<U: FloatUnit>(
    weights: ModelWeights,
    config: &ModelRunnerConfig,
    model: LlamaBidirectionalModel,
    layer: int,
)
    requires
        call_ensures(LlamaBidirectionalModel::new::<U>, (weights, config), Ok(model)),
        config.num_heads * config.head_dim <= usize::MAX,
        config.num_kv_heads * config.head_dim <= usize::MAX,
        0 <= layer < config.num_layers,
    ensures
        model.stack().len() == config.num_layers,
        model.settings().num_layers == config.num_layers,
        model.settings().hidden_size == config.hidden_size,
        model.settings().num_heads == config.num_heads,
        model.settings().num_kv_heads == config.num_kv_heads,
        model.settings().head_dim == config.head_dim,
        model.settings().rms_norm_eps == config.rms_norm_eps,
        comes_from(
            weights@,
            "model.embed_tokens.weight"@,
            seq![config.vocab_size, config.hidden_size],
            model.embedding()@,
        ),
        comes_from(
            weights@,
            "model.norm.weight"@,
            seq![config.hidden_size],
            model.final_norm()@,
        ),
        ({
            let prefix = "model.layers."@ + llama::decimal(layer as nat);
            let hidden = config.hidden_size;
            let inner = config.intermediate_size;
            let q = (config.num_heads * config.head_dim) as usize;
            let kv = (config.num_kv_heads * config.head_dim) as usize;
            let here = model.stack()[layer];
            &&& comes_from(
                weights@,
                prefix + ".input_layernorm.weight"@,
                seq![hidden],
                here.input_layernorm@,
            )
            &&& comes_from(
                weights@,
                prefix + ".post_attention_layernorm.weight"@,
                seq![hidden],
                here.post_attention_layernorm@,
            )
            &&& comes_from(
                weights@,
                prefix + ".self_attn.q_proj.weight"@,
                seq![q, hidden],
                here.q_proj@,
            )
            &&& comes_from(
                weights@,
                prefix + ".self_attn.k_proj.weight"@,
                seq![kv, hidden],
                here.k_proj@,
            )
            &&& comes_from(
                weights@,
                prefix + ".self_attn.v_proj.weight"@,
                seq![kv, hidden],
                here.v_proj@,
            )
            &&& comes_from(
                weights@,
                prefix + ".self_attn.o_proj.weight"@,
                seq![hidden, q],
                here.o_proj@,
            )
            &&& comes_from(
                weights@,
                prefix + ".mlp.gate_proj.weight"@,
                seq![inner, hidden],
                here.gate_proj@,
            )
            &&& comes_from(
                weights@,
                prefix + ".mlp.up_proj.weight"@,
                seq![inner, hidden],
                here.up_proj@,
            )
            &&& comes_from(
                weights@,
                prefix + ".mlp.down_proj.weight"@,
                seq![hidden, inner],
                here.down_proj@,
            )
        }),
{
    let hidden = config.hidden_size;
    let inner = config.intermediate_size;
    let q = (config.num_heads * config.head_dim) as usize;
    let kv = (config.num_kv_heads * config.head_dim) as usize;
    let prefix = "model.layers."@ + llama::decimal(layer as nat);
    assert(llama_bidirectional::layer_loaded(
        weights@,
        config,
        layer as nat,
        model.stack()[layer],
    ));
    lemma_comes_from(
        weights@,
        "model.embed_tokens.weight"@,
        seq![config.vocab_size, config.hidden_size],
    );
    lemma_comes_from(weights@, "model.norm.weight"@, seq![config.hidden_size]);
    lemma_comes_from(weights@, prefix + ".input_layernorm.weight"@, seq![hidden]);
    lemma_comes_from(weights@, prefix + ".post_attention_layernorm.weight"@, seq![hidden]);
    lemma_comes_from(weights@, prefix + ".self_attn.q_proj.weight"@, seq![q, hidden]);
    lemma_comes_from(weights@, prefix + ".self_attn.k_proj.weight"@, seq![kv, hidden]);
    lemma_comes_from(weights@, prefix + ".self_attn.v_proj.weight"@, seq![kv, hidden]);
    lemma_comes_from(weights@, prefix + ".self_attn.o_proj.weight"@, seq![hidden, q]);
    lemma_comes_from(weights@, prefix + ".mlp.gate_proj.weight"@, seq![inner, hidden]);
    lemma_comes_from(weights@, prefix + ".mlp.up_proj.weight"@, seq![inner, hidden]);
    lemma_comes_from(weights@, prefix + ".mlp.down_proj.weight"@, seq![hidden, inner]);
}

/// The sizes of the configuration multiply within the range of `usize`.
pub open spec fn sizes_are_ordinary(config: &ModelRunnerConfig, positions: nat) -> bool {
    &&& config.vocab_size * config.hidden_size <= usize::MAX
    &&& config.num_heads * config.head_dim <= usize::MAX
    &&& config.num_kv_heads * config.head_dim <= usize::MAX
    &&& (config.num_heads * config.head_dim) * config.hidden_size <= usize::MAX
    &&& (config.num_kv_heads * config.head_dim) * config.hidden_size <= usize::MAX
    &&& config.intermediate_size * config.hidden_size <= usize::MAX
    &&& 1 <= positions
    &&& config.max_position <= positions
    &&& positions * config.head_dim <= usize::MAX
}

/// Configurations of ordinary sizes make a model, whatever weights there are and however many layers.
pub proof fn law_ordinary_configurations_load(
    weights: ModelWeights,
    config: &ModelRunnerConfig,
    positions: nat,
    loads: bool,
)
    requires
        call_ensures(llama_bidirectional::can_load, (&weights, config), loads),
        sizes_are_ordinary(config, positions),
    ensures
        loads,
{
    lemma_ordinary_sizes_load(weights, config, positions);
}

/// Where the sizes are ordinary and the frequencies are as many as a head has pairs, there is a model,
/// and it holds the tensors and tables that are asked for.
pub proof fn law_ordinary_configurations_give_a_model<U: FloatUnit>(
    weights: ModelWeights,
    config: &ModelRunnerConfig,
    positions: nat,
    r: Option<LlamaBidirectionalModel>,
)
    requires
        sizes_are_ordinary(config, positions),
        forall|f: Seq<Single>| #[trigger]
            llama_bidirectional::inv_freq_gives::<U>(config, f) ==> f.len()
                == config.head_dim as nat / 2,
        call_ensures(LlamaBidirectionalModel::try_new::<U>, (weights, config), r),
    ensures
        r is Some,
        r->0.wf(),
        r->0.loaded_from(weights@, config),
        exists|f: Seq<Single>| #[trigger]
            llama_bidirectional::inv_freq_gives::<U>(config, f) && r->0.tables_from::<U>(config, f),
{
    lemma_ordinary_sizes_load(weights, config, positions);
}

proof fn lemma_ordinary_sizes_load(
    weights: ModelWeights,
    config: &ModelRunnerConfig,
    positions: nat,
)
    requires
        sizes_are_ordinary(config, positions),
    ensures
        llama_bidirectional::loadable(weights@, config),
{
    reveal_with_fuel(bridge::element_count, 3);
    let hidden = config.hidden_size;
    let inner = config.intermediate_size;
    let q = (config.num_heads * config.head_dim) as usize;
    let kv = (config.num_kv_heads * config.head_dim) as usize;
    lemma_two_dimensions(config.vocab_size, hidden);
    lemma_two_dimensions(q, hidden);
    lemma_two_dimensions(kv, hidden);
    lemma_two_dimensions(hidden, q);
    lemma_two_dimensions(inner, hidden);
    lemma_two_dimensions(hidden, inner);
    assert(hidden * q == q * hidden) by (nonlinear_arith);
    assert(hidden * inner == inner * hidden) by (nonlinear_arith);
    llama::law_zeros_fill_their_shape(seq![hidden]);
    let len = llama_bidirectional::table_len(config) as int;
    let half = config.head_dim as int / 2;
    assert(len * half <= positions * config.head_dim) by (nonlinear_arith)
        requires
            0 <= len <= positions,
            0 <= half <= config.head_dim,
    ;
    assert forall|layer: nat|
        layer < config.num_layers implies #[trigger] llama_bidirectional::layer_loadable(
        weights@,
        config,
        layer,
    ) by {}
}

proof fn lemma_two_dimensions(a: usize, b: usize)
    ensures
        bridge::element_count(seq![a, b]) == a * b,
{
    llama::law_zeros_fill_their_shape(seq![a, b]);
}

/// What the model's rotary tables are: where nothing rounds, entry `i` of position `pos` is cosine and
/// sine of `pos` times a frequency. Without the Llama 3 scaling the frequency is the positive number
/// whose `head_dim`-th power, times the base to the `2 * i`, is one. With it, it is the scaling of
/// such a number over the rotary size. That number and the frequency are returned.
pub proof fn law_model_tables_hold_the_frequencies<U: FloatUnit>(
    reading: Reading,
    weights: ModelWeights,
    config: &ModelRunnerConfig,
    model: LlamaBidirectionalModel,
    i: int,
    pos: int,
) -> (found: (nat, real, real))
    requires
        reading.never_rounds::<U>(),
        reading.of(config.rope_theta) > 0real,
        reading.of(config.partial_rotary_factor) >= 0real,
        config.rope_scaling matches Some(rs) ==> reading.of(rs.low_freq_factor) > 0real
            && reading.of(rs.high_freq_factor) > 0real,
        call_ensures(LlamaBidirectionalModel::new::<U>, (weights, config), Ok(model)),
        forall|f: Seq<Single>| #[trigger]
            llama_bidirectional::inv_freq_gives::<U>(config, f) ==> f.len()
                == config.head_dim as nat / 2,
        0 <= i < config.head_dim as nat / 2,
        0 <= pos,
        pos < config.max_position || pos < 1,
    ensures
        ({
            let (dim, x, freq) = found;
            let half = config.head_dim as nat / 2;
            let angle = exact::whole(pos as nat) * freq;
            &&& x > 0real
            &&& exact::power(x, dim) * exact::power(
                reading.of(config.rope_theta),
                (2 * i) as nat,
            ) == 1real
            &&& match config.rope_scaling {
                Some(rs) if rs.rope_type@ == "llama3"@ => {
                    let size = exact::whole(config.head_dim as nat) * reading.of(
                        config.partial_rotary_factor,
                    );
                    &&& exact::whole(dim) <= size
                    &&& size < exact::whole(dim + 1)
                    &&& rope_meaning::scaled_as(
                        reading.of(Single::two_pi()),
                        reading.of(rs.factor),
                        reading.of(rs.low_freq_factor),
                        reading.of(rs.high_freq_factor),
                        exact::whole(rs.original_max_position_embeddings as nat),
                        x,
                        freq,
                    )
                },
                _ => dim == config.head_dim && freq == x,
            }
            &&& reading.of(model.tables().cos@[pos * half + i]) == (reading.cos)(angle)
            &&& reading.of(model.tables().sin@[pos * half + i]) == (reading.sin)(angle)
        }),
{
    let f = choose|f: Seq<Single>| #[trigger]
        llama_bidirectional::inv_freq_gives::<U>(config, f) && model.tables_from::<U>(config, f);
    let tables = model.tables();
    rope_meaning::lemma_built_tables::<U>(reading, &tables, f);
    let c = tables.cos@[pos * tables.half_dim + i];
    let theta = config.rope_theta;
    if llama_bidirectional::asks_for_llama3(config) {
        let rs = config.rope_scaling->0;
        let context = choose|max_position: Single|
            #[trigger] Single::converts::<U>(rs.original_max_position_embeddings, max_position)
                && crate::rope_llama3::llama3_gives::<U>(
                config.head_dim,
                config.partial_rotary_factor,
                config.rope_theta,
                (Llama3Scaling {
                    factor: rs.factor,
                    low_freq_factor: rs.low_freq_factor,
                    high_freq_factor: rs.high_freq_factor,
                    original_max_position_embeddings: max_position,
                }),
                f,
            );
        let scaling = Llama3Scaling {
            factor: rs.factor,
            low_freq_factor: rs.low_freq_factor,
            high_freq_factor: rs.high_freq_factor,
            original_max_position_embeddings: context,
        };
        let (dim, x) = rope_meaning::lemma_llama3_values::<U>(
            reading,
            config.head_dim,
            config.partial_rotary_factor,
            theta,
            scaling,
            f,
            i,
        );
        (dim as nat, x, reading.of(f[i]))
    } else {
        rope_meaning::lemma_frequency_value::<U>(reading, theta, config.head_dim, i, f[i]);
        (config.head_dim as nat, reading.of(f[i]), reading.of(f[i]))
    }
}

/// What the kernels, the rotation and the attention of a run compute, as functions of tensors.
pub struct Kernels {
    pub embed: spec_fn(Tensor<Half>, Seq<u32>, usize) -> Tensor<Half>,
    pub norm: spec_fn(Tensor<Half>, Tensor<Half>, Single) -> Tensor<Half>,
    pub linear: spec_fn(Tensor<Half>, Tensor<Half>) -> Tensor<Half>,
    pub mlp: spec_fn(Tensor<Half>, Tensor<Half>, Tensor<Half>, Tensor<Half>) -> Tensor<Half>,
    pub add: spec_fn(Tensor<Half>, Tensor<Half>) -> Tensor<Half>,
    pub rotate: spec_fn(Tensor<Half>, nat) -> Tensor<Half>,
    pub attend: spec_fn(Tensor<Half>, Tensor<Half>, Tensor<Half>, nat) -> Tensor<Half>,
}

impl Kernels {
    /// Whatever the kernels, the rotation and the attention return is what these functions give.
    pub open spec fn compute<U: FloatUnit, K: LayerKernels, B: AttentionBackend>(
        self,
        model: &LlamaBidirectionalModel,
        input: &ModelInput,
        attention: &B,
    ) -> bool {
        &&& forall|t: GpuBuffer<Half>, ids: Vec<u32>, h: usize, r: GpuBuffer<Half>| #[trigger]
            call_ensures(K::embed_tokens, (&t, &ids, h), r) ==> r@ == (self.embed)(t@, ids@, h)
        &&& forall|x: GpuBuffer<Half>, w: GpuBuffer<Half>, eps: Single, r: GpuBuffer<Half>|
            #[trigger] call_ensures(K::rms_norm, (&x, &w, eps), Ok(r)) ==> r@ == (self.norm)(
                x@,
                w@,
                eps,
            )
        &&& forall|x: GpuBuffer<Half>, w: GpuBuffer<Half>, r: GpuBuffer<Half>| #[trigger]
            call_ensures(K::linear, (&x, &w, None), Ok(r)) ==> r@ == (self.linear)(x@, w@)
        &&& forall|
            x: GpuBuffer<Half>,
            g: GpuBuffer<Half>,
            u: GpuBuffer<Half>,
            d: GpuBuffer<Half>,
            r: GpuBuffer<Half>,
        | #[trigger]
            call_ensures(K::mlp, (&x, &g, &u, &d), Ok(r)) ==> r@ == (self.mlp)(x@, g@, u@, d@)
        &&& forall|x: GpuBuffer<Half>, u: GpuBuffer<Half>, r: GpuBuffer<Half>| #[trigger]
            call_ensures(K::add_residual, (x, &u), r) ==> r@ == (self.add)(x@, u@)
        &&& forall|heads: nat, x: GpuBuffer<Half>, r: GpuBuffer<Half>| #[trigger]
            model.rotates::<U>(input, heads, x, r) ==> r@ == (self.rotate)(x@, heads)
        &&& forall|
            q: GpuBuffer<Half>,
            k: GpuBuffer<Half>,
            v: GpuBuffer<Half>,
            layer: usize,
            r: GpuBuffer<Half>,
        | #[trigger]
            call_ensures(
                B::forward,
                (attention, &q, &k, &v, &input.attention_metadata, layer),
                Ok(r),
            ) ==> r@ == (self.attend)(q@, k@, v@, layer as nat)
    }

    /// What a layer adds to the hidden state by its attention.
    pub open spec fn attended(
        self,
        model: &LlamaBidirectionalModel,
        layer: nat,
        x: Tensor<Half>,
    ) -> Tensor<Half> {
        let w = model.stack()[layer as int];
        let normed = (self.norm)(x, w.input_layernorm@, model.settings().rms_norm_eps);
        (self.linear)(
            (self.attend)(
                (self.rotate)(
                    (self.linear)(normed, w.q_proj@),
                    model.settings().num_heads as nat,
                ),
                (self.rotate)(
                    (self.linear)(normed, w.k_proj@),
                    model.settings().num_kv_heads as nat,
                ),
                (self.linear)(normed, w.v_proj@),
                layer,
            ),
            w.o_proj@,
        )
    }

    /// What a layer adds to the hidden state by its feed-forward network.
    pub open spec fn fed(
        self,
        model: &LlamaBidirectionalModel,
        layer: nat,
        x: Tensor<Half>,
    ) -> Tensor<Half> {
        let w = model.stack()[layer as int];
        (self.mlp)(
            (self.norm)(x, w.post_attention_layernorm@, model.settings().rms_norm_eps),
            w.gate_proj@,
            w.up_proj@,
            w.down_proj@,
        )
    }

    /// The hidden state after `n` layers.
    pub open spec fn state(
        self,
        model: &LlamaBidirectionalModel,
        input: &ModelInput,
        n: nat,
    ) -> Tensor<Half>
        decreases n,
    {
        if n == 0 {
            (self.embed)(model.embedding()@, input.token_ids@, model.settings().hidden_size)
        } else {
            let layer = (n - 1) as nat;
            let x = self.state(model, input, layer);
            let middle = (self.add)(x, self.attended(model, layer, x));
            (self.add)(middle, self.fed(model, layer, middle))
        }
    }
}

proof fn lemma_layer_state<U: FloatUnit, K: LayerKernels, B: AttentionBackend>(
    kernels: Kernels,
    model: &LlamaBidirectionalModel,
    input: &ModelInput,
    attention: &B,
    layer: nat,
    x: GpuBuffer<Half>,
    out: GpuBuffer<Half>,
)
    requires
        layer <= usize::MAX,
        kernels.compute::<U, K, B>(model, input, attention),
        model.layer_gives::<U, K, B>(
            input,
            attention,
            layer,
            x,
            Some(Ok::<GpuBuffer<Half>, RunnerError>(out)),
        ),
    ensures
        ({
            let middle = (kernels.add)(x@, kernels.attended(model, layer, x@));
            out@ == (kernels.add)(middle, kernels.fed(model, layer, middle))
        }),
{
    let done: llama_bidirectional::Progress = Some(Ok::<GpuBuffer<Half>, RunnerError>(out));
    let w = model.stack()[layer as int];
    let normed = (kernels.norm)(x@, w.input_layernorm@, model.settings().rms_norm_eps);
    assert forall|attended: GpuBuffer<Half>|
        (kernels.linear)(attended@, w.o_proj@) == kernels.attended(model, layer, x@)
            && #[trigger] model.after_attention_gives::<K>(layer, x, attended, done) implies ({
        let middle = (kernels.add)(x@, kernels.attended(model, layer, x@));
        out@ == (kernels.add)(middle, kernels.fed(model, layer, middle))
    }) by {
        lemma_after_attention_state::<U, K, B>(
            kernels,
            model,
            input,
            attention,
            layer,
            x,
            attended,
            out,
        );
    }
    lemma_attention_state::<U, K, B>(kernels, model, input, attention, layer, x, done);
}

proof fn lemma_after_attention_state<U: FloatUnit, K: LayerKernels, B: AttentionBackend>(
    kernels: Kernels,
    model: &LlamaBidirectionalModel,
    input: &ModelInput,
    attention: &B,
    layer: nat,
    x: GpuBuffer<Half>,
    attended: GpuBuffer<Half>,
    out: GpuBuffer<Half>,
)
    requires
        kernels.compute::<U, K, B>(model, input, attention),
        model.after_attention_gives::<K>(
            layer,
            x,
            attended,
            Some(Ok::<GpuBuffer<Half>, RunnerError>(out)),
        ),
    ensures
        ({
            let w = model.stack()[layer as int];
            let middle = (kernels.add)(x@, (kernels.linear)(attended@, w.o_proj@));
            out@ == (kernels.add)(middle, kernels.fed(model, layer, middle))
        }),
{
}

proof fn lemma_attention_state<U: FloatUnit, K: LayerKernels, B: AttentionBackend>(
    kernels: Kernels,
    model: &LlamaBidirectionalModel,
    input: &ModelInput,
    attention: &B,
    layer: nat,
    x: GpuBuffer<Half>,
    done: llama_bidirectional::Progress,
)
    requires
        layer <= usize::MAX,
        done matches Some(Ok(_)),
        kernels.compute::<U, K, B>(model, input, attention),
        model.layer_gives::<U, K, B>(input, attention, layer, x, done),
    ensures
        exists|attended: GpuBuffer<Half>|
            (kernels.linear)(attended@, model.stack()[layer as int].o_proj@) == kernels.attended(
                model,
                layer,
                x@,
            ) && #[trigger] model.after_attention_gives::<K>(layer, x, attended, done),
{
}

proof fn lemma_layers_state<U: FloatUnit, K: LayerKernels, B: AttentionBackend>(
    kernels: Kernels,
    model: &LlamaBidirectionalModel,
    input: &ModelInput,
    attention: &B,
    n: nat,
    out: llama_bidirectional::Progress,
)
    requires
        n <= usize::MAX,
        kernels.compute::<U, K, B>(model, input, attention),
        model.layers_give::<U, K, B>(input, attention, n, out),
    ensures
        out matches Some(Ok(hidden)) ==> hidden@ == kernels.state(model, input, n),
    decreases n,
{
    if n > 0 {
        let before = choose|before: llama_bidirectional::Progress|
            {
                &&& model.layers_give::<U, K, B>(input, attention, (n - 1) as nat, before)
                &&& #[trigger] model.continues::<U, K, B>(
                    input,
                    attention,
                    (n - 1) as nat,
                    before,
                    out,
                )
            };
        lemma_layers_state::<U, K, B>(kernels, model, input, attention, (n - 1) as nat, before);
        if let (Some(Ok(x)), Some(Ok(y))) = (before, out) {
            lemma_layer_state::<U, K, B>(kernels, model, input, attention, (n - 1) as nat, x, y);
        }
    }
}

/// What a run computes, whatever functions the kernels compute: the embedding, then layer after
/// layer the hidden state plus the layer's attention, plus its feed-forward network, all layers
/// counted, then the last norm, widened.
pub proof fn law_a_run_is_the_stack_of_its_layers<
    U: FloatUnit,
    K: LayerKernels,
    B: AttentionBackend,
>(
    kernels: Kernels,
    model: &LlamaBidirectionalModel,
    input: &ModelInput,
    cache: &CacheEngine,
    attention: &B,
    out: GpuBuffer<Single>,
)
    requires
        kernels.compute::<U, K, B>(model, input, attention),
        model.wf(),
        call_ensures(
            LlamaBidirectionalModel::forward::<U, K, B>,
            (model, input, cache, attention),
            Ok(out),
        ),
    ensures
        out.shape@ == seq![input.token_ids@.len() as usize, model.settings().hidden_size],
        ({
            let last = (kernels.norm)(
                kernels.state(model, input, model.settings().num_layers as nat),
                model.final_norm()@,
                model.settings().rms_norm_eps,
            );
            &&& out.data@.len() == last.data.len()
            &&& forall|i: int|
                0 <= i < out.data@.len() ==> call_ensures(
                    U::widen,
                    (last.data[i],),
                    #[trigger] out.data@[i],
                )
        }),
{
    let r = Ok::<GpuBuffer<Single>, RunnerError>(out);
    let n = model.stack().len();
    let progress = choose|progress: llama_bidirectional::Progress|
        {
            &&& #[trigger] model.layers_give::<U, K, B>(input, attention, n, progress)
            &&& match progress {
                None => false,
                Some(Err(e)) => false,
                Some(Ok(hidden)) => model.finish_gives::<U, K>(input, hidden, r),
            }
        };
    lemma_layers_state::<U, K, B>(kernels, model, input, attention, n, progress);
    let hidden = progress->0->Ok_0;
    let normed = choose|normed: Result<GpuBuffer<Half>, RunnerError>|
        {
            &&& #[trigger] llama_bidirectional::normalizes::<K>(
                hidden,
                model.final_norm(),
                model.settings().rms_norm_eps,
                normed,
            )
            &&& match normed {
                Err(_) => false,
                Ok(normed) => {
                    &&& out.data@.len() == normed.data@.len()
                    &&& forall|i: int|
                        0 <= i < out.data@.len() ==> Single::widens::<U>(
                            normed.data@[i],
                            #[trigger] out.data@[i],
                        )
                },
            }
        };
    let last = normed->Ok_0;
    assert(llama_bidirectional::normalizes::<K>(
        hidden,
        model.final_norm(),
        model.settings().rms_norm_eps,
        Ok(last),
    ));
    assert(last@.data == last.data@);
}

/// Every layer counts: measured by anything that adds up over the residual stream, the hidden state
/// that a run comes to after `n` layers is the embedding plus what each of the `n` layers adds, its
/// attention and its feed-forward network, once each.
pub proof fn law_every_layer_adds_its_updates<
    U: FloatUnit,
    K: LayerKernels,
    B: AttentionBackend,
>(
    kernels: Kernels,
    model: &LlamaBidirectionalModel,
    input: &ModelInput,
    attention: &B,
    measure: spec_fn(Tensor<Half>) -> real,
    by_attention: spec_fn(int) -> real,
    by_network: spec_fn(int) -> real,
    n: nat,
    hidden: GpuBuffer<Half>,
)
    requires
        n <= usize::MAX,
        kernels.compute::<U, K, B>(model, input, attention),
        forall|x: Tensor<Half>, u: Tensor<Half>| #[trigger]
            measure((kernels.add)(x, u)) == measure(x) + measure(u),
        forall|layer: nat, x: Tensor<Half>|
            layer < n ==> measure(#[trigger] kernels.attended(model, layer, x)) == by_attention(
                layer as int,
            ),
        forall|layer: nat, x: Tensor<Half>|
            layer < n ==> measure(#[trigger] kernels.fed(model, layer, x)) == by_network(
                layer as int,
            ),
        model.layers_give::<U, K, B>(
            input,
            attention,
            n,
            Some(Ok::<GpuBuffer<Half>, RunnerError>(hidden)),
        ),
    ensures
        measure(hidden@) == measure(
            (kernels.embed)(model.embedding()@, input.token_ids@, model.settings().hidden_size),
        ) + exact::total(by_attention, n) + exact::total(by_network, n),
{
    lemma_layers_state::<U, K, B>(
        kernels,
        model,
        input,
        attention,
        n,
        Some(Ok::<GpuBuffer<Half>, RunnerError>(hidden)),
    );
    lemma_state_adds_up(kernels, model, input, measure, by_attention, by_network, n);
}

proof fn lemma_state_adds_up(
    kernels: Kernels,
    model: &LlamaBidirectionalModel,
    input: &ModelInput,
    measure: spec_fn(Tensor<Half>) -> real,
    by_attention: spec_fn(int) -> real,
    by_network: spec_fn(int) -> real,
    n: nat,
)
    requires
        forall|x: Tensor<Half>, u: Tensor<Half>| #[trigger]
            measure((kernels.add)(x, u)) == measure(x) + measure(u),
        forall|layer: nat, x: Tensor<Half>|
            layer < n ==> measure(#[trigger] kernels.attended(model, layer, x)) == by_attention(
                layer as int,
            ),
        forall|layer: nat, x: Tensor<Half>|
            layer < n ==> measure(#[trigger] kernels.fed(model, layer, x)) == by_network(
                layer as int,
            ),
    ensures
        measure(kernels.state(model, input, n)) == measure(kernels.state(model, input, 0))
            + exact::total(by_attention, n) + exact::total(by_network, n),
    decreases n,
{
    if n > 0 {
        lemma_state_adds_up(
            kernels,
            model,
            input,
            measure,
            by_attention,
            by_network,
            (n - 1) as nat,
        );
        let layer = (n - 1) as nat;
        let x = kernels.state(model, input, layer);
        let middle = (kernels.add)(x, kernels.attended(model, layer, x));
        assert(measure(kernels.attended(model, layer, x)) == by_attention(layer as int));
        assert(measure(kernels.fed(model, layer, middle)) == by_network(layer as int));
        assert(measure(middle) == measure(x) + measure(kernels.attended(model, layer, x)));
    }
}

/// A kernel or the backend returned this error.
pub open spec fn was_returned<K: LayerKernels, B: AttentionBackend>(
    attention: &B,
    input: &ModelInput,
    e: RunnerError,
) -> bool {
    ||| exists|x: GpuBuffer<Half>, w: GpuBuffer<Half>, eps: Single| #[trigger]
        call_ensures(K::rms_norm, (&x, &w, eps), Err(e))
    ||| exists|x: GpuBuffer<Half>, w: GpuBuffer<Half>| #[trigger]
        call_ensures(K::linear, (&x, &w, None), Err(e))
    ||| exists|
        x: GpuBuffer<Half>,
        g: GpuBuffer<Half>,
        u: GpuBuffer<Half>,
        d: GpuBuffer<Half>,
    | #[trigger]
        call_ensures(K::mlp, (&x, &g, &u, &d), Err(e))
    ||| exists|q: GpuBuffer<Half>, k: GpuBuffer<Half>, v: GpuBuffer<Half>, layer: usize| #[trigger]
        call_ensures(
            B::forward,
            (attention, &q, &k, &v, &input.attention_metadata, layer),
            Err(e),
        )
}

proof fn lemma_layers_error<U: FloatUnit, K: LayerKernels, B: AttentionBackend>(
    model: &LlamaBidirectionalModel,
    input: &ModelInput,
    attention: &B,
    n: nat,
    out: llama_bidirectional::Progress,
)
    requires
        model.layers_give::<U, K, B>(input, attention, n, out),
    ensures
        out matches Some(Err(e)) ==> was_returned::<K, B>(attention, input, e),
    decreases n,
{
    if n > 0 {
        let before = choose|before: llama_bidirectional::Progress|
            {
                &&& model.layers_give::<U, K, B>(input, attention, (n - 1) as nat, before)
                &&& #[trigger] model.continues::<U, K, B>(
                    input,
                    attention,
                    (n - 1) as nat,
                    before,
                    out,
                )
            };
        lemma_layers_error::<U, K, B>(model, input, attention, (n - 1) as nat, before);
    }
}

/// The error that a run returns is one that a kernel or the attention backend returned.
pub proof fn law_an_error_is_handed_on<U: FloatUnit, K: LayerKernels, B: AttentionBackend>(
    model: &LlamaBidirectionalModel,
    input: &ModelInput,
    cache: &CacheEngine,
    attention: &B,
    e: RunnerError,
)
    requires
        model.wf(),
        call_ensures(
            LlamaBidirectionalModel::forward::<U, K, B>,
            (model, input, cache, attention),
            Err(e),
        ),
    ensures
        was_returned::<K, B>(attention, input, e),
{
    let r = Err::<GpuBuffer<Single>, RunnerError>(e);
    let n = model.stack().len();
    let progress = choose|progress: llama_bidirectional::Progress|
        {
            &&& #[trigger] model.layers_give::<U, K, B>(input, attention, n, progress)
            &&& match progress {
                None => false,
                Some(Err(f)) => Some(r) == Some(Err::<GpuBuffer<Single>, RunnerError>(f)),
                Some(Ok(hidden)) => model.finish_gives::<U, K>(input, hidden, r),
            }
        };
    lemma_layers_error::<U, K, B>(model, input, attention, n, progress);
}

/// How a run rotates its queries and keys: where nothing rounds, pair `i` of head `h` of token `t` is
/// turned by the token's own position times the frequency that the tables were built from.
pub proof fn law_queries_and_keys_turn_by_position<U: FloatUnit>(
    reading: Reading,
    model: &LlamaBidirectionalModel,
    inv_freq: Seq<Single>,
    input: &ModelInput,
    heads: nat,
    x: GpuBuffer<Half>,
    r: GpuBuffer<Half>,
    t: int,
    h: int,
    i: int,
)
    requires
        reading.never_rounds::<U>(),
        model.tables().built_from::<U>(inv_freq),
        model.rotates::<U>(input, heads, x, r),
        0 <= t < input.token_ids@.len(),
        t < input.position_ids@.len(),
        input.position_ids@[t] < model.tables().max_seq_len,
        0 <= h < heads,
        0 <= i < model.tables().half_dim,
    ensures
        r.shape@ == x.shape@,
        r.data@.len() == x.data@.len(),
        ({
            let dim = model.settings().head_dim;
            let at = t * (heads * dim) + h * dim + 2 * i;
            let angle = exact::whole(input.position_ids@[t] as nat) * reading.of(inv_freq[i]);
            let c = (reading.cos)(angle);
            let s = (reading.sin)(angle);
            let a = reading.of_half(x.data@[at]);
            let b = reading.of_half(x.data@[at + 1]);
            &&& reading.of_half(r.data@[at]) == a * c - b * s
            &&& reading.of_half(r.data@[at + 1]) == a * s + b * c
        }),
{
    rope_meaning::law_rotation_turns_by_the_angle::<U>(
        reading,
        &model.tables(),
        inv_freq,
        x.data@,
        input.position_ids@,
        heads,
        model.settings().head_dim as nat,
        crate::rope_llama3::rotated_rows(input.position_ids@, input.token_ids@.len()),
        r.data@,
        t,
        h,
        i,
    );
}

/// Loading succeeds where the sizes are ordinary and the frequencies are as many as a head has pairs.
pub proof fn law_loading_succeeds<U: FloatUnit>(
    weights: ModelWeights,
    config: &ModelRunnerConfig,
    positions: nat,
    r: Result<LlamaBidirectionalModel, RunnerError>,
)
    requires
        sizes_are_ordinary(config, positions),
        forall|f: Seq<Single>| #[trigger]
            llama_bidirectional::inv_freq_gives::<U>(config, f) ==> f.len()
                == config.head_dim as nat / 2,
        call_ensures(LlamaBidirectionalModel::new::<U>, (weights, config), r),
    ensures
        r is Ok,
        r->Ok_0.wf(),
{
    lemma_ordinary_sizes_load(weights, config, positions);
}

/// Without the Llama 3 scaling the frequencies are as many as a head has pairs, whatever else the
/// configuration says of scaling or of a rotary factor.
pub proof fn law_standard_frequencies_fit_every_head<U: FloatUnit>(
    config: &ModelRunnerConfig,
    r: Vec<Single>,
)
    requires
        config.rope_scaling matches Some(rs) ==> rs.rope_type@ != "llama3"@,
        call_ensures(llama_bidirectional::inv_freq::<U>, (config,), r),
    ensures
        r@.len() == config.head_dim as nat / 2,
{
}

} // verus!
