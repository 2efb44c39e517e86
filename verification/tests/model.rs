use half::f16;
use rvllm_bidirectional::architectures::llama::{get_or_zeros, is_obtainable, layer_tensor_name};
use rvllm_bidirectional::architectures::llama_bidirectional::{
    can_load, inv_freq, LlamaBidirectionalModel,
};
use rvllm_bidirectional::attn_cpu::CpuBidirectionalAttention;
use rvllm_bidirectional::bridge::{
    AttentionBackend, AttentionMetadata, CacheEngine, GpuBuffer, ModelWeights, RunnerError,
};
use rvllm_bidirectional::float::{FloatUnit, Half, Single};
use rvllm_bidirectional::input::ModelInput;
use rvllm_bidirectional::layers::LayerKernels;
use rvllm_bidirectional::rope_llama3::{
    compute_inv_freq_llama3, compute_inv_freq_standard, RopeCosSinCache,
};
use rvllm_bidirectional::runner::{Dtype, ModelRunnerConfig, RopeScalingConfig};

/// The arithmetic of the machine's own floats.
struct Ieee;

fn s(x: f32) -> Single {
    Single { bits: x.to_bits() }
}

fn f(x: Single) -> f32 {
    f32::from_bits(x.bits)
}

impl FloatUnit for Ieee {
    fn widen(x: Half) -> Single {
        s(f16::from_bits(x.bits).to_f32())
    }
    fn narrow(x: Single) -> Half {
        Half { bits: f16::from_f32(f(x)).to_bits() }
    }
    fn from_usize(n: usize) -> Single {
        s(n as f32)
    }
    fn to_usize(x: Single) -> usize {
        f(x) as usize
    }
    fn plus(a: Single, b: Single) -> Single {
        s(f(a) + f(b))
    }
    fn minus(a: Single, b: Single) -> Single {
        s(f(a) - f(b))
    }
    fn times(a: Single, b: Single) -> Single {
        s(f(a) * f(b))
    }
    fn over(a: Single, b: Single) -> Single {
        s(f(a) / f(b))
    }
    fn power(a: Single, b: Single) -> Single {
        s(f(a).powf(f(b)))
    }
    fn root(x: Single) -> Single {
        s(f(x).sqrt())
    }
    fn exponential(x: Single) -> Single {
        s(f(x).exp())
    }
    fn cosine(x: Single) -> Single {
        s(f(x).cos())
    }
    fn sine(x: Single) -> Single {
        s(f(x).sin())
    }
}

fn h(x: f32) -> Half {
    Half { bits: f16::from_f32(x).to_bits() }
}

fn w(x: Half) -> f32 {
    f16::from_bits(x.bits).to_f32()
}

/// Plain dense kernels.
struct Dense;

impl LayerKernels for Dense {
    fn embed_tokens(table: &GpuBuffer<Half>, token_ids: &Vec<u32>, hidden_size: usize) -> GpuBuffer<Half> {
        let mut data = Vec::new();
        for id in token_ids {
            let start = *id as usize * hidden_size;
            data.extend_from_slice(&table.data[start..start + hidden_size]);
        }
        GpuBuffer::from_vec(data, vec![token_ids.len(), hidden_size])
    }

    fn rms_norm(x: &GpuBuffer<Half>, weight: &GpuBuffer<Half>, eps: Single) -> Result<GpuBuffer<Half>, RunnerError> {
        let n = weight.data.len();
        let mut data = Vec::new();
        for row in x.data.chunks(n) {
            let mean = row.iter().map(|v| w(*v) * w(*v)).sum::<f32>() / n as f32;
            let scale = 1.0 / (mean + f(eps)).sqrt();
            for (v, g) in row.iter().zip(weight.data.iter()) {
                data.push(h(w(*v) * scale * w(*g)));
            }
        }
        Ok(GpuBuffer::from_vec(data, x.shape.clone()))
    }

    fn linear(
        x: &GpuBuffer<Half>,
        weight: &GpuBuffer<Half>,
        bias: Option<&GpuBuffer<Half>>,
    ) -> Result<GpuBuffer<Half>, RunnerError> {
        assert!(bias.is_none());
        let (outputs, inputs) = (weight.shape[0], weight.shape[1]);
        let mut data = Vec::new();
        for row in x.data.chunks(inputs) {
            for o in 0..outputs {
                let mut acc = 0.0;
                for i in 0..inputs {
                    acc += w(row[i]) * w(weight.data[o * inputs + i]);
                }
                data.push(h(acc));
            }
        }
        Ok(GpuBuffer::from_vec(data, vec![x.shape[0], outputs]))
    }

    fn mlp(
        x: &GpuBuffer<Half>,
        gate: &GpuBuffer<Half>,
        up: &GpuBuffer<Half>,
        down: &GpuBuffer<Half>,
    ) -> Result<GpuBuffer<Half>, RunnerError> {
        let gates = Self::linear(x, gate, None)?;
        let mut inner = Self::linear(x, up, None)?;
        for (u, g) in inner.data.iter_mut().zip(gates.data.iter()) {
            let g = w(*g);
            *u = h(w(*u) * g / (1.0 + (-g).exp()));
        }
        Self::linear(&inner, down, None)
    }

    fn add_residual(hidden: GpuBuffer<Half>, update: &GpuBuffer<Half>) -> GpuBuffer<Half> {
        let data = hidden
            .data
            .iter()
            .zip(update.data.iter())
            .map(|(a, b)| h(w(*a) + w(*b)))
            .collect();
        GpuBuffer::from_vec(data, hidden.shape)
    }
}

/// A backend that returns its query.
struct Echo;

impl AttentionBackend for Echo {
    fn fits(&self, _: &GpuBuffer<Half>, _: &GpuBuffer<Half>, _: &GpuBuffer<Half>) -> bool {
        true
    }
    fn forward(
        &self,
        query: &GpuBuffer<Half>,
        _: &GpuBuffer<Half>,
        _: &GpuBuffer<Half>,
        _: &AttentionMetadata,
        _: usize,
    ) -> Result<GpuBuffer<Half>, RunnerError> {
        Ok(query.duplicate())
    }
}

/// A backend that fails in one layer.
struct FailsIn(usize);

impl AttentionBackend for FailsIn {
    fn fits(&self, _: &GpuBuffer<Half>, _: &GpuBuffer<Half>, _: &GpuBuffer<Half>) -> bool {
        true
    }
    fn forward(
        &self,
        query: &GpuBuffer<Half>,
        _: &GpuBuffer<Half>,
        _: &GpuBuffer<Half>,
        _: &AttentionMetadata,
        layer_idx: usize,
    ) -> Result<GpuBuffer<Half>, RunnerError> {
        if layer_idx == self.0 {
            Err(RunnerError::Backend { message: format!("layer {layer_idx}") })
        } else {
            Ok(query.duplicate())
        }
    }
}

fn make_config(num_layers: usize, hidden_size: usize) -> ModelRunnerConfig {
    let head_dim = hidden_size / 2;
    ModelRunnerConfig {
        num_layers,
        hidden_size,
        num_heads: 2,
        num_kv_heads: 2,
        head_dim,
        intermediate_size: hidden_size * 4,
        vocab_size: 32,
        max_position: 512,
        dtype: Dtype::Float16,
        rms_norm_eps: s(1e-5),
        rope_theta: s(10_000.0),
        partial_rotary_factor: s(1.0),
        rope_scaling: None,
        architecture: "LlamaBidirectionalModel".into(),
    }
}

fn make_input(token_ids: Vec<u32>) -> ModelInput {
    let n = token_ids.len();
    ModelInput {
        token_ids,
        position_ids: (0..n as u32).collect(),
        attention_metadata: AttentionMetadata {
            slot_mapping: vec![],
            context_lens: vec![],
            block_tables: vec![],
            query_lens: vec![1],
            max_context_len: 0,
        },
        is_prefill: true,
    }
}

fn llama3() -> RopeScalingConfig {
    RopeScalingConfig {
        rope_type: "llama3".into(),
        factor: s(8.0),
        low_freq_factor: s(1.0),
        high_freq_factor: s(4.0),
        original_max_position_embeddings: 8192,
    }
}

#[test]
fn constructs_with_default_weights() {
    let config = make_config(1, 8);
    assert!(LlamaBidirectionalModel::new::<Ieee>(ModelWeights::default(), &config).is_ok());
}

#[test]
fn constructs_with_llama3_rope_scaling() {
    let mut config = make_config(1, 8);
    config.rope_scaling = Some(llama3());
    assert!(LlamaBidirectionalModel::new::<Ieee>(ModelWeights::default(), &config).is_ok());
}

#[test]
fn forward_returns_hidden_shape() {
    let config = make_config(1, 8);
    let model = LlamaBidirectionalModel::new::<Ieee>(ModelWeights::default(), &config).unwrap();
    let input = make_input(vec![1, 2, 3]);
    let cache = CacheEngine::new(1, 64);
    let attn = Echo;
    let out = model.forward::<Ieee, Dense, Echo>(&input, &cache, &attn).unwrap();
    assert_eq!(out.shape, vec![3, 8]);
    assert_eq!(out.data.len(), 24);
}

#[test]
fn frequencies_follow_the_configuration() {
    let mut config = make_config(1, 128);
    let standard: Vec<u32> = compute_inv_freq_standard::<Ieee>(64, s(10_000.0))
        .iter()
        .map(|x| x.bits)
        .collect();
    let bits = |c: &ModelRunnerConfig| -> Vec<u32> {
        inv_freq::<Ieee>(c).iter().map(|x| x.bits).collect()
    };
    assert_eq!(bits(&config), standard);
    config.rope_scaling = Some(llama3());
    let scaled: Vec<u32> =
        compute_inv_freq_llama3::<Ieee>(64, s(1.0), s(10_000.0), s(8.0), s(1.0), s(4.0), s(8192.0))
            .iter()
            .map(|x| x.bits)
            .collect();
    assert_eq!(bits(&config), scaled);
    assert_ne!(scaled, standard);
    let mut linear = llama3();
    linear.rope_type = "linear".into();
    config.rope_scaling = Some(linear);
    assert_eq!(bits(&config), standard);
}

#[test]
fn frequencies_that_do_not_fit_the_head_give_no_model() {
    let mut config = make_config(1, 8);
    config.rope_scaling = Some(llama3());
    config.partial_rotary_factor = s(0.5);
    assert!(LlamaBidirectionalModel::try_new::<Ieee>(ModelWeights::default(), &config).is_none());
    config.partial_rotary_factor = s(1.0);
    assert!(LlamaBidirectionalModel::try_new::<Ieee>(ModelWeights::default(), &config).is_some());
    config.partial_rotary_factor = s(0.5);
    config.rope_scaling = None;
    assert!(LlamaBidirectionalModel::try_new::<Ieee>(ModelWeights::default(), &config).is_some());
}

#[test]
fn tensor_names_hold_the_layer() {
    assert_eq!(layer_tensor_name(0, ".mlp.up_proj.weight"), "model.layers.0.mlp.up_proj.weight");
    assert_eq!(
        layer_tensor_name(27, ".self_attn.q_proj.weight"),
        "model.layers.27.self_attn.q_proj.weight"
    );
    assert_eq!(layer_tensor_name(1090, ".x"), "model.layers.1090.x");
    assert_ne!(layer_tensor_name(1, ".1.x"), layer_tensor_name(11, ".x"));
}

#[test]
fn missing_weights_are_zeros() {
    let mut weights = ModelWeights::default();
    match weights.get_as_buffer("a") {
        Err(RunnerError::MissingWeight { name }) => assert_eq!(name, "a"),
        _ => panic!("found a tensor"),
    }
    let zeros = get_or_zeros(&weights, "a", &[2, 3]);
    assert_eq!(zeros.shape, vec![2, 3]);
    assert_eq!(zeros.data, vec![Half::zero(); 6]);
    weights.insert("a".into(), GpuBuffer::from_vec(vec![h(1.0)], vec![1]));
    weights.insert("b".into(), GpuBuffer::from_vec(vec![h(2.0)], vec![1]));
    weights.insert("a".into(), GpuBuffer::from_vec(vec![h(3.0)], vec![1]));
    assert_eq!(weights.get_as_buffer("a").unwrap().data, vec![h(3.0)]);
    assert_eq!(weights.get_as_buffer("b").unwrap().data, vec![h(2.0)]);
    assert_eq!(get_or_zeros(&weights, "a", &[2, 3]).data, vec![h(3.0)]);
}

const PARTS: [(&str, usize, usize); 7] = [
    (".self_attn.q_proj.weight", 8, 8),
    (".self_attn.k_proj.weight", 4, 8),
    (".self_attn.v_proj.weight", 4, 8),
    (".self_attn.o_proj.weight", 8, 8),
    (".mlp.gate_proj.weight", 16, 8),
    (".mlp.up_proj.weight", 16, 8),
    (".mlp.down_proj.weight", 8, 16),
];

fn noise(seed: &mut u64, n: usize) -> Vec<Half> {
    (0..n)
        .map(|_| {
            *seed = seed.wrapping_mul(6364136223846793005).wrapping_add(1442695040888963407);
            h(((*seed >> 40) % 1001) as f32 / 1000.0 - 0.5)
        })
        .collect()
}

fn random_weights(layers: usize) -> ModelWeights {
    let mut seed = 42;
    let mut weights = ModelWeights::default();
    weights.insert(
        "model.embed_tokens.weight".into(),
        GpuBuffer::from_vec(noise(&mut seed, 32 * 8), vec![32, 8]),
    );
    weights.insert(
        "model.norm.weight".into(),
        GpuBuffer::from_vec(noise(&mut seed, 8), vec![8]),
    );
    for layer in 0..layers {
        for norm in [".input_layernorm.weight", ".post_attention_layernorm.weight"] {
            weights.insert(
                format!("model.layers.{layer}{norm}"),
                GpuBuffer::from_vec(noise(&mut seed, 8), vec![8]),
            );
        }
        for (part, rows, cols) in PARTS {
            weights.insert(
                format!("model.layers.{layer}{part}"),
                GpuBuffer::from_vec(noise(&mut seed, rows * cols), vec![rows, cols]),
            );
        }
    }
    weights
}

fn grouped_config(num_layers: usize) -> ModelRunnerConfig {
    let mut config = make_config(num_layers, 8);
    config.num_kv_heads = 1;
    config.intermediate_size = 16;
    config
}

#[test]
fn a_run_is_the_stack_of_its_layers() {
    let layers = 3;
    let weights = random_weights(layers);
    let config = grouped_config(layers);
    let input = make_input(vec![5, 0, 31, 7]);
    let attn = CpuBidirectionalAttention::<Ieee>::new(2, 1, 4);
    let eps = s(1e-5);

    let get = |name: String| random_weights(layers).get_as_buffer(&name).unwrap();
    let rope = RopeCosSinCache::from_inv_freq::<Ieee>(
        &compute_inv_freq_standard::<Ieee>(4, s(10_000.0)),
        512,
        4,
    );
    let mut hidden =
        Dense::embed_tokens(&get("model.embed_tokens.weight".into()), &input.token_ids, 8);
    for i in 0..layers {
        let part = |p: &str| get(format!("model.layers.{i}.{p}.weight"));
        let normed = Dense::rms_norm(&hidden, &part("input_layernorm"), eps).unwrap();
        let mut q = Dense::linear(&normed, &part("self_attn.q_proj"), None).unwrap();
        let mut k = Dense::linear(&normed, &part("self_attn.k_proj"), None).unwrap();
        let v = Dense::linear(&normed, &part("self_attn.v_proj"), None).unwrap();
        rope.apply::<Ieee>(&mut q.data, &input.position_ids, 4, 2, 4);
        rope.apply::<Ieee>(&mut k.data, &input.position_ids, 4, 1, 4);
        let out = attn.forward(&q, &k, &v, &input.attention_metadata, i).unwrap();
        let proj = Dense::linear(&out, &part("self_attn.o_proj"), None).unwrap();
        hidden = Dense::add_residual(hidden, &proj);
        let normed = Dense::rms_norm(&hidden, &part("post_attention_layernorm"), eps).unwrap();
        let update = Dense::mlp(
            &normed,
            &part("mlp.gate_proj"),
            &part("mlp.up_proj"),
            &part("mlp.down_proj"),
        )
        .unwrap();
        hidden = Dense::add_residual(hidden, &update);
    }
    let last = Dense::rms_norm(&hidden, &get("model.norm.weight".into()), eps).unwrap();
    let expected: Vec<u32> = last.data.iter().map(|x| w(*x).to_bits()).collect();

    let model = LlamaBidirectionalModel::new::<Ieee>(weights, &config).unwrap();
    let cache = CacheEngine::new(1, 64);
    let out = model
        .forward::<Ieee, Dense, CpuBidirectionalAttention<Ieee>>(&input, &cache, &attn)
        .unwrap();
    let got: Vec<u32> = out.data.iter().map(|x| x.bits).collect();
    assert_eq!(got, expected);
    assert_eq!(out.shape, vec![4, 8]);
    assert!(got.iter().any(|b| *b != 0));
}

#[test]
fn a_model_without_layers_normalizes_the_embedding() {
    let config = grouped_config(0);
    let model = LlamaBidirectionalModel::new::<Ieee>(random_weights(0), &config).unwrap();
    let input = make_input(vec![3]);
    let out = model
        .forward::<Ieee, Dense, Echo>(&input, &CacheEngine::new(1, 64), &Echo)
        .unwrap();
    let embedded = Dense::embed_tokens(
        &random_weights(0).get_as_buffer("model.embed_tokens.weight").unwrap(),
        &vec![3],
        8,
    );
    let expected = Dense::rms_norm(
        &embedded,
        &random_weights(0).get_as_buffer("model.norm.weight").unwrap(),
        s(1e-5),
    )
    .unwrap();
    let expected: Vec<f32> = expected.data.iter().map(|x| w(*x)).collect();
    let got: Vec<f32> = out.data.iter().map(|x| f(*x)).collect();
    assert_eq!(got, expected);
}

#[test]
fn a_model_of_no_weights_returns_zeros() {
    let model =
        LlamaBidirectionalModel::new::<Ieee>(ModelWeights::default(), &grouped_config(2)).unwrap();
    let out = model
        .forward::<Ieee, Dense, Echo>(&make_input(vec![1, 2]), &CacheEngine::new(1, 64), &Echo)
        .unwrap();
    assert!(out.data.iter().all(|x| f(*x) == 0.0));
}

#[test]
fn the_first_error_ends_the_run() {
    let model =
        LlamaBidirectionalModel::new::<Ieee>(random_weights(3), &grouped_config(3)).unwrap();
    let input = make_input(vec![1, 2]);
    let cache = CacheEngine::new(1, 64);
    match model.forward::<Ieee, Dense, FailsIn>(&input, &cache, &FailsIn(1)) {
        Err(RunnerError::Backend { message }) => assert_eq!(message, "layer 1"),
        _ => panic!("no error"),
    }
    assert!(model.forward::<Ieee, Dense, FailsIn>(&input, &cache, &FailsIn(3)).is_ok());
}

#[test]
fn operands_without_their_rows_end_the_run() {
    let mut weights = random_weights(1);
    weights.insert(
        "model.layers.0.self_attn.k_proj.weight".into(),
        GpuBuffer::from_vec(vec![h(0.5); 2 * 8], vec![2, 8]),
    );
    let model = LlamaBidirectionalModel::new::<Ieee>(weights, &grouped_config(1)).unwrap();
    let input = make_input(vec![1, 2]);
    let cache = CacheEngine::new(1, 64);
    assert!(model.try_forward::<Ieee, Dense, Echo>(&input, &cache, &Echo).is_none());

    let mut weights = random_weights(1);
    weights.insert(
        "model.layers.0.self_attn.v_proj.weight".into(),
        GpuBuffer::from_vec(vec![h(0.5); 2 * 8], vec![2, 8]),
    );
    let model = LlamaBidirectionalModel::new::<Ieee>(weights, &grouped_config(1)).unwrap();
    let attn = CpuBidirectionalAttention::<Ieee>::new(2, 1, 4);
    assert!(model
        .try_forward::<Ieee, Dense, CpuBidirectionalAttention<Ieee>>(&input, &cache, &attn)
        .is_none());
    assert!(matches!(
        model.try_forward::<Ieee, Dense, Echo>(&input, &cache, &Echo),
        Some(Ok(_))
    ));
}

#[test]
fn tables_cover_at_least_one_position() {
    let mut config = grouped_config(1);
    config.max_position = 0;
    let model = LlamaBidirectionalModel::new::<Ieee>(random_weights(1), &config).unwrap();
    let input = make_input(vec![4, 5]);
    let cache = CacheEngine::new(1, 64);
    let out = model.try_forward::<Ieee, Dense, Echo>(&input, &cache, &Echo);
    assert!(matches!(out, Some(Ok(_))));
}

#[test]
fn sizes_out_of_range_give_no_model() {
    let none = ModelWeights::default;
    assert!(can_load(&none(), &make_config(1, 8)));

    let mut config = make_config(1, 8);
    config.num_heads = usize::MAX;
    assert!(!can_load(&none(), &config));
    assert!(LlamaBidirectionalModel::try_new::<Ieee>(none(), &config).is_none());
    config.num_layers = 0;
    assert!(can_load(&none(), &config));

    let mut config = make_config(1, 8);
    config.max_position = usize::MAX;
    assert!(!can_load(&none(), &config));

    let mut config = make_config(0, 8);
    config.vocab_size = usize::MAX;
    assert!(!can_load(&none(), &config));
    let mut weights = ModelWeights::default();
    weights.insert(
        "model.embed_tokens.weight".into(),
        GpuBuffer::from_vec(vec![h(1.0); 8], vec![1, 8]),
    );
    assert!(can_load(&weights, &config));
    assert!(LlamaBidirectionalModel::try_new::<Ieee>(weights, &config).is_some());

    let mut config = make_config(1, 8);
    config.intermediate_size = usize::MAX;
    assert!(!can_load(&none(), &config));
    assert!(is_obtainable(&none(), "a", &[usize::MAX]));
    assert!(is_obtainable(&none(), "a", &[usize::MAX, 1]));
    assert!(!is_obtainable(&none(), "a", &[usize::MAX, 2]));
}

#[test]
fn odd_rotary_sizes_fit_where_the_counts_agree() {
    let loads = |head_dim: usize, part: f32, scaled: bool| {
        let mut config = make_config(1, 8);
        config.head_dim = head_dim;
        config.partial_rotary_factor = s(part);
        config.rope_scaling = if scaled { Some(llama3()) } else { None };
        LlamaBidirectionalModel::try_new::<Ieee>(ModelWeights::default(), &config).is_some()
    };
    assert!(!loads(7, 1.0, true));
    assert!(loads(7, 1.0, false));
    assert!(loads(8, 1.0, true));
    assert!(loads(8, 0.875, true));
    assert!(!loads(8, 0.75, true));
}

fn bits(out: GpuBuffer<Single>) -> (Vec<u32>, Vec<usize>) {
    (out.data.iter().map(|x| x.bits).collect(), out.shape)
}

#[test]
fn cache_and_prefill_do_not_matter() {
    let model =
        LlamaBidirectionalModel::new::<Ieee>(random_weights(2), &grouped_config(2)).unwrap();
    let attn = CpuBidirectionalAttention::<Ieee>::new(2, 1, 4);
    let run = |is_prefill: bool, cache: CacheEngine| {
        let mut input = make_input(vec![9, 2, 9]);
        input.is_prefill = is_prefill;
        bits(
            model
                .forward::<Ieee, Dense, CpuBidirectionalAttention<Ieee>>(&input, &cache, &attn)
                .unwrap(),
        )
    };
    let first = run(true, CacheEngine::new(1, 64));
    assert_eq!(first, run(false, CacheEngine::new(1, 64)));
    assert_eq!(first, run(true, CacheEngine::new(7, 0)));
}

#[test]
fn zero_projections_leave_the_residual_stream() {
    let mut weights = random_weights(3);
    for layer in 0..3 {
        for (part, rows, cols) in PARTS {
            if part.contains("o_proj") || part.contains("down_proj") {
                weights.insert(
                    format!("model.layers.{layer}{part}"),
                    GpuBuffer::from_vec(vec![Half::zero(); rows * cols], vec![rows, cols]),
                );
            }
        }
    }
    let input = make_input(vec![4, 8, 15]);
    let cache = CacheEngine::new(1, 64);
    let attn = CpuBidirectionalAttention::<Ieee>::new(2, 1, 4);
    let model = LlamaBidirectionalModel::new::<Ieee>(weights, &grouped_config(3)).unwrap();
    let bare = LlamaBidirectionalModel::new::<Ieee>(random_weights(3), &grouped_config(0)).unwrap();
    let a = model
        .forward::<Ieee, Dense, CpuBidirectionalAttention<Ieee>>(&input, &cache, &attn)
        .unwrap();
    let b = bare
        .forward::<Ieee, Dense, CpuBidirectionalAttention<Ieee>>(&input, &cache, &attn)
        .unwrap();
    assert_eq!(a.shape, b.shape);
    for i in 0..24 {
        assert_eq!(f(a.data[i]), f(b.data[i]));
    }
    assert!(a.data.iter().any(|x| f(*x) != 0.0));
}
