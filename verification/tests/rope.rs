use half::f16;
use rvllm_bidirectional::float::{FloatUnit, Half, Single};
use rvllm_bidirectional::rope_llama3::{
    compute_inv_freq_llama3, compute_inv_freq_standard, RopeCosSinCache,
};

/// The arithmetic of the machine's own floats.
struct Ieee;

fn s(x: f32) -> Single {
    Single { bits: x.to_bits() }
}

fn f(x: Single) -> f32 {
    f32::from_bits(x.bits)
}

impl FloatUnit for Ieee {
    fn widen(x: Half) -> Single {
        s(f16::from_bits(x.bits).to_f32())
    }
    fn narrow(x: Single) -> Half {
        Half { bits: f16::from_f32(f(x)).to_bits() }
    }
    fn from_usize(n: usize) -> Single {
        s(n as f32)
    }
    fn to_usize(x: Single) -> usize {
        f(x) as usize
    }
    fn plus(a: Single, b: Single) -> Single {
        s(f(a) + f(b))
    }
    fn minus(a: Single, b: Single) -> Single {
        s(f(a) - f(b))
    }
    fn times(a: Single, b: Single) -> Single {
        s(f(a) * f(b))
    }
    fn over(a: Single, b: Single) -> Single {
        s(f(a) / f(b))
    }
    fn power(a: Single, b: Single) -> Single {
        s(f(a).powf(f(b)))
    }
    fn root(x: Single) -> Single {
        s(f(x).sqrt())
    }
    fn exponential(x: Single) -> Single {
        s(f(x).exp())
    }
    fn cosine(x: Single) -> Single {
        s(f(x).cos())
    }
    fn sine(x: Single) -> Single {
        s(f(x).sin())
    }
}

fn h(x: f32) -> Half {
    Half { bits: f16::from_f32(x).to_bits() }
}

#[test]
fn standard_inv_freq_len_matches_half_dim() {
    let v = compute_inv_freq_standard::<Ieee>(128, s(500_000.0));
    assert_eq!(v.len(), 64);
}

#[test]
fn llama3_inv_freq_smoke() {
    let v = compute_inv_freq_llama3::<Ieee>(
        128,
        s(1.0),
        s(500_000.0),
        s(32.0),
        s(1.0),
        s(4.0),
        s(8192.0),
    );
    assert_eq!(v.len(), 64);
    assert!(v.iter().all(|x| f(*x).is_finite()));
}

#[test]
fn standard_frequencies_are_the_formula() {
    let v = compute_inv_freq_standard::<Ieee>(8, s(10_000.0));
    let expected: Vec<f32> = (0..4)
        .map(|i| 1.0 / 10_000.0f32.powf((2 * i) as f32 / 8.0))
        .collect();
    assert_eq!(v.len(), 4);
    for i in 0..4 {
        assert_eq!(f(v[i]), expected[i]);
    }
    assert_eq!(f(v[0]), 1.0);
    assert_eq!(compute_inv_freq_standard::<Ieee>(1, s(10_000.0)).len(), 0);
    assert_eq!(compute_inv_freq_standard::<Ieee>(7, s(10_000.0)).len(), 3);
}

#[test]
fn llama3_scales_by_band() {
    let base = compute_inv_freq_standard::<Ieee>(128, s(500_000.0));
    let scaled = compute_inv_freq_llama3::<Ieee>(
        128,
        s(1.0),
        s(500_000.0),
        s(32.0),
        s(1.0),
        s(4.0),
        s(8192.0),
    );
    let (mut kept, mut cut, mut smoothed) = (0, 0, 0);
    for i in 0..64 {
        let freq = f(base[i]);
        let wavelen = 2.0 * std::f32::consts::PI / freq;
        if wavelen < 8192.0 / 4.0 {
            kept += 1;
            assert_eq!(f(scaled[i]), freq);
        } else if wavelen > 8192.0 {
            cut += 1;
            assert_eq!(f(scaled[i]), freq / 32.0);
        } else {
            smoothed += 1;
            let t = (8192.0 / wavelen - 1.0) / (4.0 - 1.0);
            assert_eq!(f(scaled[i]), (1.0 - t) * freq / 32.0 + t * freq);
        }
    }
    assert!(kept > 0 && cut > 0 && smoothed > 0);
    assert_eq!(kept + cut + smoothed, 64);
}

#[test]
fn llama3_rotates_part_of_a_head() {
    let v = compute_inv_freq_llama3::<Ieee>(
        128,
        s(0.5),
        s(500_000.0),
        s(32.0),
        s(1.0),
        s(4.0),
        s(8192.0),
    );
    assert_eq!(v.len(), 32);
}

#[test]
fn tables_hold_cosine_and_sine_per_position() {
    let inv_freq = [s(1.0), s(0.25)];
    let cache = RopeCosSinCache::from_inv_freq::<Ieee>(&inv_freq, 3, 4);
    assert_eq!(cache.half_dim, 2);
    assert_eq!(cache.max_seq_len, 3);
    assert_eq!(cache.cos.len(), 6);
    assert_eq!(cache.sin.len(), 6);
    for pos in 0..3 {
        for i in 0..2 {
            let theta = pos as f32 * f(inv_freq[i]);
            assert_eq!(f(cache.cos[pos * 2 + i]), theta.cos());
            assert_eq!(f(cache.sin[pos * 2 + i]), theta.sin());
        }
    }
}

fn reference_apply(
    cache: &RopeCosSinCache,
    data: &mut [f16],
    positions: &[u32],
    num_tokens: usize,
    num_heads: usize,
    head_dim: usize,
) {
    for (t, &pos_u) in positions.iter().take(num_tokens).enumerate() {
        let pos = pos_u as usize;
        if pos >= cache.max_seq_len {
            continue;
        }
        for head in 0..num_heads {
            let base = t * num_heads * head_dim + head * head_dim;
            for i in 0..cache.half_dim {
                let c = f(cache.cos[pos * cache.half_dim + i]);
                let n = f(cache.sin[pos * cache.half_dim + i]);
                let x0 = data[base + 2 * i].to_f32();
                let x1 = data[base + 2 * i + 1].to_f32();
                data[base + 2 * i] = f16::from_f32(x0 * c - x1 * n);
                data[base + 2 * i + 1] = f16::from_f32(x0 * n + x1 * c);
            }
        }
    }
}

fn rotate_both(
    cache: &RopeCosSinCache,
    len: usize,
    positions: &[u32],
    num_tokens: usize,
    num_heads: usize,
    head_dim: usize,
) -> (Vec<u16>, Vec<u16>, Vec<u16>) {
    let start: Vec<f16> = (0..len)
        .map(|i| f16::from_f32(((i * 37 % 19) as f32 - 9.0) / 4.0))
        .collect();
    let mut data: Vec<Half> = start.iter().map(|x| Half { bits: x.to_bits() }).collect();
    let mut expected = start.clone();
    cache.apply::<Ieee>(&mut data, positions, num_tokens, num_heads, head_dim);
    reference_apply(cache, &mut expected, positions, num_tokens, num_heads, head_dim);
    (
        start.iter().map(|x| x.to_bits()).collect(),
        data.iter().map(|x| x.bits).collect(),
        expected.iter().map(|x| x.to_bits()).collect(),
    )
}

fn small_cache() -> RopeCosSinCache {
    let inv_freq = compute_inv_freq_standard::<Ieee>(4, s(10_000.0));
    RopeCosSinCache::from_inv_freq::<Ieee>(&inv_freq, 8, 4)
}

#[test]
fn rotation_turns_each_pair() {
    let cache = small_cache();
    let (start, data, expected) = rotate_both(&cache, 3 * 2 * 4, &[1, 2, 7], 3, 2, 4);
    assert_eq!(data, expected);
    assert!(data != start);
}

#[test]
fn rotation_skips_positions_beyond_the_tables() {
    let cache = small_cache();
    let (start, data, expected) = rotate_both(&cache, 3 * 2 * 4, &[1, 8, 3], 3, 2, 4);
    assert_eq!(data, expected);
    assert_eq!(data[8..16], start[8..16]);
    assert!(data[0..8] != start[0..8]);
    assert!(data[16..24] != start[16..24]);
}

#[test]
fn rotation_needs_a_row_and_a_position() {
    let cache = small_cache();
    let (start, data, expected) = rotate_both(&cache, 3 * 4, &[5], 3, 1, 4);
    assert_eq!(data, expected);
    assert_eq!(data[4..], start[4..]);
    let (start, data, expected) = rotate_both(&cache, 3 * 4, &[5, 6, 7], 2, 1, 4);
    assert_eq!(data, expected);
    assert_eq!(data[8..], start[8..]);
}

#[test]
fn rotation_leaves_components_beyond_the_tables() {
    let cache = small_cache();
    let (start, data, expected) = rotate_both(&cache, 2 * 2 * 6, &[1, 2], 2, 2, 6);
    assert_eq!(data, expected);
    for head in 0..4 {
        assert_eq!(data[head * 6 + 4..head * 6 + 6], start[head * 6 + 4..head * 6 + 6]);
    }
}

#[test]
fn rotation_of_overlapping_heads_runs_in_order() {
    let cache = small_cache();
    let (_, data, expected) = rotate_both(&cache, 2 * 2 * 3 + 1, &[3, 4], 2, 2, 3);
    assert_eq!(data, expected);
}

#[test]
fn rotation_by_a_right_angle() {
    let cache = RopeCosSinCache {
        cos: vec![s(1.0), s(0.0)],
        sin: vec![s(0.0), s(1.0)],
        half_dim: 1,
        max_seq_len: 2,
    };
    let mut data = vec![h(2.0), h(3.0), h(2.0), h(3.0)];
    cache.apply::<Ieee>(&mut data, &[0, 1], 2, 1, 2);
    assert_eq!(data, vec![h(2.0), h(3.0), h(-3.0), h(2.0)]);
}

#[test]
fn rotation_fits_the_elements_it_touches() {
    let cache = small_cache();
    assert!(cache.fits(24, &[1, 2, 3], 3, 2, 4));
    assert!(!cache.fits(23, &[1, 2, 3], 3, 2, 4));
    assert!(cache.fits(16, &[1, 2, 8], 3, 2, 4));
    assert!(cache.fits(16, &[1, 2, 3], 2, 2, 4));
    assert!(cache.fits(0, &[], 3, 2, 4));
    assert!(cache.fits(0, &[1], 1, 0, 4));
    assert!(cache.fits(22, &[1, 2], 2, 2, 6));
    assert!(!cache.fits(21, &[1, 2], 2, 2, 6));
    assert!(!cache.fits(usize::MAX, &[1, 1, 1], 3, 2, usize::MAX / 2));
    assert!(!cache.fits(usize::MAX, &[1], 1, usize::MAX, usize::MAX));
}

#[test]
fn position_zero_keeps_its_values() {
    let cache = small_cache();
    let (start, data, expected) = rotate_both(&cache, 2 * 2 * 4, &[0, 3], 2, 2, 4);
    assert_eq!(data, expected);
    for i in 0..8 {
        assert_eq!(f16::from_bits(data[i]).to_f32(), f16::from_bits(start[i]).to_f32());
    }
    assert!(data[8..] != start[8..]);
}

fn llama3(head_dim: usize, part: f32, low: f32, high: f32, context: f32) -> Vec<f32> {
    compute_inv_freq_llama3::<Ieee>(
        head_dim,
        s(part),
        s(10_000.0),
        s(8.0),
        s(low),
        s(high),
        s(context),
    )
    .iter()
    .map(|x| f(*x))
    .collect()
}

#[test]
fn llama3_cuts_the_rotary_size() {
    let v = llama3(10, 0.36, 1.0, 4.0, 1e9);
    assert_eq!(v.len(), 2);
    assert_eq!(v[0], 1.0);
    assert!((v[1] - 0.0021544).abs() < 1e-5);
    assert_eq!(v[1], 1.0 / 10_000.0f32.powf(2.0 / 3.0));
}

#[test]
fn llama3_counts_even_indices() {
    assert_eq!(llama3(7, 1.0, 1.0, 4.0, 8192.0).len(), 4);
    assert_eq!(llama3(8, 1.0, 1.0, 4.0, 8192.0).len(), 4);
    assert_eq!(llama3(8, 0.99, 1.0, 4.0, 8192.0).len(), 4);
    assert_eq!(llama3(8, 0.75, 1.0, 4.0, 8192.0).len(), 3);
    assert_eq!(llama3(1, 1.0, 1.0, 4.0, 8192.0).len(), 1);
    assert_eq!(llama3(8, 0.0, 1.0, 4.0, 8192.0).len(), 0);
    assert_eq!(llama3(8, -1.0, 1.0, 4.0, 8192.0).len(), 0);
}

#[test]
fn equal_rotary_sizes_give_equal_frequencies() {
    let whole = llama3(64, 1.0, 1.0, 4.0, 512.0);
    assert_eq!(llama3(128, 0.5, 1.0, 4.0, 512.0), whole);
    assert_eq!(llama3(256, 0.25, 1.0, 4.0, 512.0), whole);
    assert_ne!(llama3(128, 1.0, 1.0, 4.0, 512.0), whole);
}

#[test]
fn band_depends_on_ratios() {
    assert_eq!(llama3(64, 1.0, 1.0, 4.0, 512.0), llama3(64, 1.0, 2.0, 8.0, 1024.0));
    assert_ne!(llama3(64, 1.0, 1.0, 4.0, 512.0), llama3(64, 1.0, 1.0, 4.0, 1024.0));
}

#[test]
fn swapped_factors_smooth_nothing() {
    let v = llama3(64, 1.0, 4.0, 1.0, 512.0);
    let base = compute_inv_freq_standard::<Ieee>(64, s(10_000.0));
    let mut between = 0;
    for i in 0..32 {
        let freq = f(base[i]);
        let wavelen = 2.0 * std::f32::consts::PI / freq;
        if wavelen > 128.0 && wavelen < 512.0 {
            between += 1;
        }
        assert_eq!(v[i], if wavelen > 128.0 { freq / 8.0 } else { freq });
    }
    assert!(between > 0);
}

#[test]
fn equal_factors_cut_at_one_wavelength() {
    let v = llama3(64, 1.0, 2.0, 2.0, 512.0);
    let base = compute_inv_freq_standard::<Ieee>(64, s(10_000.0));
    for i in 0..32 {
        let freq = f(base[i]);
        let wavelen = 2.0 * std::f32::consts::PI / freq;
        assert_eq!(v[i], if wavelen > 256.0 { freq / 8.0 } else { freq });
    }
}

#[test]
fn a_doubled_head_refines_the_scale() {
    let coarse = compute_inv_freq_standard::<Ieee>(48, s(500_000.0));
    let fine = compute_inv_freq_standard::<Ieee>(96, s(500_000.0));
    for i in 0..coarse.len() {
        assert_eq!(fine[2 * i], coarse[i]);
    }
}

#[test]
fn a_longer_table_extends_a_shorter() {
    let inv_freq = compute_inv_freq_standard::<Ieee>(6, s(10_000.0));
    let short = RopeCosSinCache::from_inv_freq::<Ieee>(&inv_freq, 5, 6);
    let long = RopeCosSinCache::from_inv_freq::<Ieee>(&inv_freq, 9, 6);
    assert_eq!(short.cos, long.cos[..15]);
    assert_eq!(short.sin, long.sin[..15]);
    assert_eq!(long.cos.len(), 27);
}

#[test]
fn heads_are_rotated_alike() {
    let cache = small_cache();
    let head = [h(1.5), h(-2.0), h(0.25), h(3.0)];
    let mut data: Vec<Half> = head.iter().chain(head.iter()).copied().collect();
    cache.apply::<Ieee>(&mut data, &[5], 1, 2, 4);
    assert_eq!(data[..4], data[4..]);
    assert_ne!(data[..4], head);
}

#[test]
fn tables_need_only_the_positions_in_use() {
    let mut cache = small_cache();
    let (_, full, _) = rotate_both(&cache, 2 * 4, &[1, 9], 2, 1, 4);
    cache.cos.truncate(4);
    cache.sin.truncate(4);
    let (_, short, expected) = rotate_both(&cache, 2 * 4, &[1, 9], 2, 1, 4);
    assert_eq!(short, expected);
    assert_eq!(short, full);
    let (start, untouched, _) = rotate_both(&cache, 2 * 4, &[7, 7], 2, 0, 4);
    assert_eq!(start, untouched);
}

#[test]
fn heads_are_rotated_as_rows() {
    let cache = small_cache();
    let (_, by_heads, _) = rotate_both(&cache, 3 * 2 * 5, &[1, 9, 6], 3, 2, 5);
    let (start, by_rows, _) = rotate_both(&cache, 3 * 2 * 5, &[1, 1, 9, 9, 6, 6], 6, 1, 5);
    assert_eq!(by_heads, by_rows);
    assert!(by_rows != start);
}
