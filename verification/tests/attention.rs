use half::f16;
use rvllm_bidirectional::attn_cpu::CpuBidirectionalAttention;
use rvllm_bidirectional::bridge::{AttentionBackend, AttentionMetadata, GpuBuffer};
use rvllm_bidirectional::float::{FloatUnit, Half, Single};

/// The arithmetic of the machine's own floats.
struct Ieee;

fn s(x: f32) -> Single {
    Single { bits: x.to_bits() }
}

fn f(x: Single) -> f32 {
    f32::from_bits(x.bits)
}

impl FloatUnit for Ieee {
    fn widen(x: Half) -> Single {
        s(f16::from_bits(x.bits).to_f32())
    }
    fn narrow(x: Single) -> Half {
        Half { bits: f16::from_f32(f(x)).to_bits() }
    }
    fn from_usize(n: usize) -> Single {
        s(n as f32)
    }
    fn to_usize(x: Single) -> usize {
        f(x) as usize
    }
    fn plus(a: Single, b: Single) -> Single {
        s(f(a) + f(b))
    }
    fn minus(a: Single, b: Single) -> Single {
        s(f(a) - f(b))
    }
    fn times(a: Single, b: Single) -> Single {
        s(f(a) * f(b))
    }
    fn over(a: Single, b: Single) -> Single {
        s(f(a) / f(b))
    }
    fn power(a: Single, b: Single) -> Single {
        s(f(a).powf(f(b)))
    }
    fn root(x: Single) -> Single {
        s(f(x).sqrt())
    }
    fn exponential(x: Single) -> Single {
        s(f(x).exp())
    }
    fn cosine(x: Single) -> Single {
        s(f(x).cos())
    }
    fn sine(x: Single) -> Single {
        s(f(x).sin())
    }
}

fn metadata(n: usize) -> AttentionMetadata {
    AttentionMetadata {
        slot_mapping: vec![0; n],
        context_lens: vec![n as u32],
        block_tables: vec![vec![0u32]; n],
        query_lens: vec![1; n],
        max_context_len: n as u32,
    }
}

fn halves(data: Vec<f16>, shape: Vec<usize>) -> GpuBuffer<Half> {
    GpuBuffer::from_vec(
        data.iter().map(|x| Half { bits: x.to_bits() }).collect(),
        shape,
    )
}

fn to_f32(x: Half) -> f32 {
    f16::from_bits(x.bits).to_f32()
}

/// With a single token, softmax is trivially 1.0 on that token; output should match V.
#[test]
fn single_token_attention_matches_value() {
    let attn = CpuBidirectionalAttention::<Ieee>::new(1, 1, 4);
    let d = 4usize;
    let q = halves(vec![f16::ONE; d], vec![1, d]);
    let k = halves(vec![f16::ONE; d], vec![1, d]);
    let v = halves(
        vec![
            f16::from_f32(1.0),
            f16::from_f32(2.0),
            f16::from_f32(3.0),
            f16::from_f32(4.0),
        ],
        vec![1, d],
    );
    let out = attn.forward(&q, &k, &v, &metadata(1), 0).unwrap();
    assert_eq!(out.shape, vec![1, d]);
    for i in 0..d {
        assert!(
            (to_f32(out.data[i]) - to_f32(v.data[i])).abs() < 1e-4,
            "i={i} out={} v={}",
            to_f32(out.data[i]),
            to_f32(v.data[i])
        );
    }
}

/// GQA: K/V narrower than Q; output width is still `num_heads * head_dim`.
#[test]
fn gqa_output_shape() {
    let num_heads = 4usize;
    let num_kv_heads = 2usize;
    let head_dim = 8usize;
    let num_tokens = 3usize;
    let attn = CpuBidirectionalAttention::<Ieee>::new(num_heads, num_kv_heads, head_dim);
    let qf = num_heads * head_dim;
    let kvf = num_kv_heads * head_dim;
    let q = halves(
        vec![f16::from_f32(0.1); num_tokens * qf],
        vec![num_tokens, qf],
    );
    let k = halves(
        vec![f16::from_f32(0.2); num_tokens * kvf],
        vec![num_tokens, kvf],
    );
    let v = halves(
        vec![f16::from_f32(0.3); num_tokens * kvf],
        vec![num_tokens, kvf],
    );
    let out = attn.forward(&q, &k, &v, &metadata(num_tokens), 0).unwrap();
    assert_eq!(out.shape, vec![num_tokens, qf]);
    assert_eq!(out.data.len(), num_tokens * qf);
}

struct Noise(u64);

impl Noise {
    fn next(&mut self) -> f16 {
        self.0 = self.0.wrapping_mul(6364136223846793005).wrapping_add(1442695040888963407);
        f16::from_f32(((self.0 >> 40) % 2001) as f32 / 500.0 - 2.0)
    }
    fn take(&mut self, n: usize) -> Vec<f16> {
        (0..n).map(|_| self.next()).collect()
    }
}

fn reference(
    q: &[f16],
    k: &[f16],
    v: &[f16],
    n: usize,
    heads: usize,
    kv_heads: usize,
    d: usize,
) -> Vec<u16> {
    let scale = 1.0 / (d as f32).sqrt();
    let group = heads / kv_heads;
    let (qf, kvf) = (heads * d, kv_heads * d);
    let mut out = vec![f16::ZERO; n * qf];
    for head in 0..heads {
        let kv = head / group;
        for i in 0..n {
            let mut logits = vec![0.0f32; n];
            let mut top = f32::NEG_INFINITY;
            for j in 0..n {
                let mut dot = 0.0f32;
                for c in 0..d {
                    dot += q[i * qf + head * d + c].to_f32() * k[j * kvf + kv * d + c].to_f32();
                }
                logits[j] = dot * scale;
                top = top.max(logits[j]);
            }
            let mut sum = 0.0f32;
            for l in &mut logits {
                *l = (*l - top).exp();
                sum += *l;
            }
            let inv = if sum > 0.0 { 1.0 / sum } else { 0.0 };
            for l in &mut logits {
                *l *= inv;
            }
            for c in 0..d {
                let mut acc = 0.0f32;
                for j in 0..n {
                    acc += logits[j] * v[j * kvf + kv * d + c].to_f32();
                }
                out[i * qf + head * d + c] = f16::from_f32(acc);
            }
        }
    }
    out.iter().map(|x| x.to_bits()).collect()
}

#[test]
fn attention_is_the_softmax_of_scaled_products() {
    let mut noise = Noise(7);
    for (n, heads, kv_heads, d) in [(5, 4, 2, 3), (4, 3, 3, 2), (6, 6, 1, 4), (1, 2, 2, 1)] {
        let q = noise.take(n * heads * d);
        let k = noise.take(n * kv_heads * d);
        let v = noise.take(n * kv_heads * d);
        let attn = CpuBidirectionalAttention::<Ieee>::new(heads, kv_heads, d);
        let out = attn
            .forward(
                &halves(q.clone(), vec![n, heads * d]),
                &halves(k.clone(), vec![n, kv_heads * d]),
                &halves(v.clone(), vec![n, kv_heads * d]),
                &metadata(n),
                0,
            )
            .unwrap();
        let got: Vec<u16> = out.data.iter().map(|x| x.bits).collect();
        assert_eq!(got, reference(&q, &k, &v, n, heads, kv_heads, d));
        assert_eq!(out.shape, vec![n, heads * d]);
    }
}

#[test]
fn single_token_output_is_exactly_the_value() {
    let mut noise = Noise(11);
    let attn = CpuBidirectionalAttention::<Ieee>::new(4, 2, 8);
    let v = noise.take(16);
    let out = attn
        .forward(
            &halves(noise.take(32), vec![1, 32]),
            &halves(noise.take(16), vec![1, 16]),
            &halves(v.clone(), vec![1, 16]),
            &metadata(1),
            0,
        )
        .unwrap();
    for head in 0..4 {
        for c in 0..8 {
            assert_eq!(out.data[head * 8 + c].bits, v[head / 2 * 8 + c].to_bits());
        }
    }
}

#[test]
fn every_token_attends_to_every_token() {
    let mut noise = Noise(3);
    let attn = CpuBidirectionalAttention::<Ieee>::new(1, 1, 2);
    let q = noise.take(6);
    let k = noise.take(6);
    let v = noise.take(6);
    let mut changed = v.clone();
    changed[4] = f16::from_f32(50.0);
    let run = |v: Vec<f16>| {
        attn.forward(
            &halves(q.clone(), vec![3, 2]),
            &halves(k.clone(), vec![3, 2]),
            &halves(v, vec![3, 2]),
            &metadata(3),
            0,
        )
        .unwrap()
    };
    let (before, after) = (run(v), run(changed));
    assert_ne!(before.data[0], after.data[0]);
    assert_eq!(before.data[1], after.data[1]);
}

#[test]
fn query_rows_are_independent() {
    let mut noise = Noise(5);
    let attn = CpuBidirectionalAttention::<Ieee>::new(2, 1, 2);
    let q = noise.take(12);
    let k = noise.take(6);
    let v = noise.take(6);
    let mut other = q.clone();
    other[0] = f16::from_f32(9.0);
    let run = |q: Vec<f16>| {
        attn.forward(
            &halves(q, vec![3, 4]),
            &halves(k.clone(), vec![3, 2]),
            &halves(v.clone(), vec![3, 2]),
            &metadata(3),
            0,
        )
        .unwrap()
    };
    let (before, after) = (run(q), run(other));
    assert_eq!(before.data[4..], after.data[4..]);
    assert_ne!(before.data[0..2], after.data[0..2]);
}

#[test]
fn metadata_and_layer_do_not_matter() {
    let mut noise = Noise(9);
    let attn = CpuBidirectionalAttention::<Ieee>::new(2, 2, 2);
    let q = halves(noise.take(8), vec![2, 4]);
    let k = halves(noise.take(8), vec![2, 4]);
    let v = halves(noise.take(8), vec![2, 4]);
    let a = attn.forward(&q, &k, &v, &metadata(2), 0).unwrap();
    let b = attn.forward(&q, &k, &v, &metadata(7), 5).unwrap();
    assert_eq!(a.data, b.data);
}

#[test]
fn undefined_logits_give_undefined_rows() {
    let attn = CpuBidirectionalAttention::<Ieee>::new(1, 1, 1);
    let q = halves(vec![f16::NAN], vec![1, 1]);
    let k = halves(vec![f16::ONE], vec![1, 1]);
    let v = halves(vec![f16::ONE], vec![1, 1]);
    let out = attn.forward(&q, &k, &v, &metadata(1), 0).unwrap();
    // The sum of the weights is not positive, so they are scaled by zero.
    assert!(f16::from_bits(out.data[0].bits).is_nan());
}

#[test]
fn no_tokens_give_no_rows() {
    let attn = CpuBidirectionalAttention::<Ieee>::new(4, 2, 8);
    let out = attn
        .forward(
            &halves(vec![], vec![0, 32]),
            &halves(vec![], vec![0, 16]),
            &halves(vec![], vec![0, 16]),
            &metadata(0),
            0,
        )
        .unwrap();
    assert_eq!(out.shape, vec![0, 32]);
    assert_eq!(out.data.len(), 0);
    let out = attn
        .forward(
            &halves(vec![], vec![]),
            &halves(vec![], vec![]),
            &halves(vec![], vec![]),
            &metadata(0),
            0,
        )
        .unwrap();
    assert_eq!(out.shape, vec![0, 32]);
}

#[test]
fn operands_fit_where_lengths_and_heads_do() {
    let buffer = |rows: usize, features: usize| {
        halves(vec![f16::ONE; rows * features], vec![rows, features])
    };
    let fits = |heads: usize, kv_heads: usize, d: usize, n: usize| {
        CpuBidirectionalAttention::<Ieee>::new(heads, kv_heads, d).fits(
            &buffer(n, heads * d),
            &buffer(n, kv_heads * d),
            &buffer(n, kv_heads * d),
        )
    };
    assert!(fits(4, 2, 8, 3));
    assert!(fits(4, 4, 8, 3));
    assert!(fits(0, 2, 8, 3));
    // The fifth head would read a third key/value head.
    assert!(!fits(5, 2, 8, 3));
    assert!(fits(5, 2, 0, 3));
    assert!(fits(5, 2, 8, 0));
    assert!(!fits(2, 4, 8, 0));
    assert!(!fits(2, 0, 8, 1));
    assert!(fits(2, 0, 8, 0));
    let attn = CpuBidirectionalAttention::<Ieee>::new(4, 2, 8);
    assert!(!attn.fits(&buffer(3, 31), &buffer(3, 16), &buffer(3, 16)));
    assert!(!attn.fits(&buffer(3, 32), &buffer(2, 16), &buffer(3, 16)));
    assert!(!attn.fits(&buffer(3, 32), &buffer(3, 16), &buffer(3, 15)));
    let wide = CpuBidirectionalAttention::<Ieee>::new(usize::MAX, usize::MAX, 2);
    assert!(!wide.fits(&buffer(0, 0), &buffer(0, 0), &buffer(0, 0)));
}

#[test]
fn heads_read_their_own_parts() {
    let mut noise = Noise(13);
    let attn = CpuBidirectionalAttention::<Ieee>::new(4, 2, 3);
    let (q, k, v) = (noise.take(24), noise.take(12), noise.take(12));
    let run = |q: &Vec<f16>, k: &Vec<f16>, v: &Vec<f16>| {
        attn.forward(
            &halves(q.clone(), vec![2, 12]),
            &halves(k.clone(), vec![2, 6]),
            &halves(v.clone(), vec![2, 6]),
            &metadata(2),
            0,
        )
        .unwrap()
        .data
    };
    let before = run(&q, &k, &v);
    // Head 1 of both rows, and key/value head 1 of both rows, hold something else.
    let (mut q2, mut k2, mut v2) = (q.clone(), k.clone(), v.clone());
    for row in 0..2 {
        for c in 0..3 {
            q2[row * 12 + 3 + c] = f16::from_f32(4.0);
            k2[row * 6 + 3 + c] = f16::from_f32(-3.0);
            v2[row * 6 + 3 + c] = f16::from_f32(7.0);
        }
    }
    let after = run(&q2, &k2, &v2);
    for row in 0..2 {
        assert_eq!(before[row * 12..row * 12 + 3], after[row * 12..row * 12 + 3]);
        assert_ne!(before[row * 12 + 3..row * 12 + 6], after[row * 12 + 3..row * 12 + 6]);
        assert_ne!(before[row * 12 + 6..row * 12 + 12], after[row * 12 + 6..row * 12 + 12]);
    }
}

#[test]
fn output_rows_follow_query_rows() {
    let mut noise = Noise(17);
    let attn = CpuBidirectionalAttention::<Ieee>::new(2, 1, 2);
    let (q, k, v) = (noise.take(12), noise.take(6), noise.take(6));
    let order = [2usize, 0, 1];
    let moved: Vec<f16> = order.iter().flat_map(|r| q[r * 4..r * 4 + 4].to_vec()).collect();
    let run = |q: Vec<f16>| {
        attn.forward(
            &halves(q, vec![3, 4]),
            &halves(k.clone(), vec![3, 2]),
            &halves(v.clone(), vec![3, 2]),
            &metadata(3),
            0,
        )
        .unwrap()
        .data
    };
    let (plain, permuted) = (run(q.clone()), run(moved));
    for (t, r) in order.iter().enumerate() {
        assert_eq!(permuted[t * 4..t * 4 + 4], plain[r * 4..r * 4 + 4]);
    }
}

#[test]
fn order_of_keys_matters_by_rounding_only() {
    let mut noise = Noise(19);
    let attn = CpuBidirectionalAttention::<Ieee>::new(1, 1, 4);
    let (q, k, v) = (noise.take(20), noise.take(20), noise.take(20));
    let order = [3usize, 0, 4, 1, 2];
    let move_rows = |x: &Vec<f16>| -> Vec<f16> {
        order.iter().flat_map(|r| x[r * 4..r * 4 + 4].to_vec()).collect()
    };
    let run = |k: Vec<f16>, v: Vec<f16>| {
        attn.forward(
            &halves(q.clone(), vec![5, 4]),
            &halves(k, vec![5, 4]),
            &halves(v, vec![5, 4]),
            &metadata(5),
            0,
        )
        .unwrap()
        .data
    };
    let plain = run(k.clone(), v.clone());
    let permuted = run(move_rows(&k), move_rows(&v));
    for i in 0..20 {
        assert!((to_f32(plain[i]) - to_f32(permuted[i])).abs() < 2e-3 * 2.0 + 1e-6);
    }
}

#[test]
fn grouped_heads_are_repeated_heads() {
    let mut noise = Noise(23);
    let (q, k, v) = (noise.take(36), noise.take(18), noise.take(18));
    let repeat = |x: &Vec<f16>| -> Vec<f16> {
        x.chunks(3).flat_map(|head| [head, head].concat()).collect()
    };
    let run = |kv_heads: usize, k: Vec<f16>, v: Vec<f16>| {
        CpuBidirectionalAttention::<Ieee>::new(4, kv_heads, 3)
            .forward(
                &halves(q.clone(), vec![3, 12]),
                &halves(k, vec![3, kv_heads * 3]),
                &halves(v, vec![3, kv_heads * 3]),
                &metadata(3),
                0,
            )
            .unwrap()
            .data
    };
    assert_eq!(run(2, k.clone(), v.clone()), run(4, repeat(&k), repeat(&v)));
}

#[test]
fn four_components_with_doubled_queries() {
    let mut noise = Noise(29);
    let (n, heads, kv_heads) = (5, 4, 2);
    let (q, k, v) = (noise.take(n * heads), noise.take(n * kv_heads), noise.take(n * kv_heads));
    let pad = |x: &Vec<f16>, factor: f32| -> Vec<f16> {
        x.iter()
            .flat_map(|x| [f16::from_f32(factor * x.to_f32()), f16::ZERO, f16::ZERO, f16::ZERO])
            .collect()
    };
    let run = |d: usize, q: Vec<f16>, k: Vec<f16>, v: Vec<f16>| {
        CpuBidirectionalAttention::<Ieee>::new(heads, kv_heads, d)
            .forward(
                &halves(q, vec![n, heads * d]),
                &halves(k, vec![n, kv_heads * d]),
                &halves(v, vec![n, kv_heads * d]),
                &metadata(n),
                0,
            )
            .unwrap()
            .data
    };
    let one = run(1, q.clone(), k.clone(), v.clone());
    let four = run(4, pad(&q, 2.0), pad(&k, 1.0), pad(&v, 1.0));
    for i in 0..n * heads {
        assert_eq!(four[4 * i], one[i]);
        assert_eq!(four[4 * i + 1..4 * i + 4], [Half::zero(); 3]);
    }
}
