//! What rotary frequencies, tables and rotations are, and how their calls relate.
use crate::exact;
use crate::exact::Reading;
use crate::float::{FloatUnit, Half, Single};
use crate::rope_llama3;
use crate::rope_llama3::{
    compute_inv_freq_llama3, compute_inv_freq_standard, Llama3Scaling, RopeCosSinCache,
};
use vstd::prelude::*;

verus! {

/// Where nothing rounds, an inverse frequency is the root that it is named for: its `dim`-th power,
/// times `theta` to the `2 * i`, is one.
pub(crate) proof fn lemma_frequency_value<U: FloatUnit>(
    reading: Reading,
    theta: Single,
    dim: usize,
    i: int,
    r: Single,
)
    requires
        reading.never_rounds::<U>(),
        reading.of(theta) > 0real,
        0 <= i,
        2 * i < dim,
        rope_llama3::frequency_gives::<U>(theta, dim, i, r),
    ensures
        r.finite(),
        reading.of(r) > 0real,
        exact::power(reading.of(r), dim as nat) * exact::power(reading.of(theta), (2 * i) as nat)
            == 1real,
{
    let (num, den, e, p) = choose|num: Single, den: Single, e: Single, p: Single|
        #![trigger Single::divides::<U>(num, den, e), Single::raises::<U>(theta, e, p)]
        {
            &&& Single::converts::<U>((2 * i) as usize, num)
            &&& Single::converts::<U>(dim, den)
            &&& Single::divides::<U>(num, den, e)
            &&& Single::raises::<U>(theta, e, p)
            &&& Single::divides::<U>(Single::one(), p, r)
        };
    let x = reading.of(r);
    let y = reading.of(p);
    assert(reading.of(e) * exact::whole(dim as nat) == exact::whole((2 * i) as nat));
    assert(exact::power(y, dim as nat) == exact::power(reading.of(theta), (2 * i) as nat));
    assert(x * y == 1real);
    exact::lemma_inverse_powers(x, y, dim as nat);
    assert(x > 0real) by (nonlinear_arith)
        requires
            x * y == 1real,
            y > 0real,
    ;
}

/// What the standard inverse frequencies are: there are `head_dim / 2`, and where nothing rounds,
/// frequency `i` is the positive number whose `head_dim`-th power, times `theta` to the `2 * i`, is
/// one.
pub proof fn law_standard_frequencies_are_roots<U: FloatUnit>(
    reading: Reading,
    head_dim: usize,
    theta: Single,
    r: Vec<Single>,
)
    requires
        reading.never_rounds::<U>(),
        reading.of(theta) > 0real,
        call_ensures(compute_inv_freq_standard::<U>, (head_dim, theta), r),
    ensures
        r@.len() == head_dim as nat / 2,
        forall|i: int|
            #![trigger r@[i]]
            0 <= i < r@.len() ==> reading.of(r@[i]) > 0real && exact::power(
                reading.of(r@[i]),
                head_dim as nat,
            ) * exact::power(reading.of(theta), (2 * i) as nat) == 1real,
{
    assert forall|i: int| #![trigger r@[i]] 0 <= i < r@.len() implies reading.of(r@[i]) > 0real
        && exact::power(reading.of(r@[i]), head_dim as nat) * exact::power(
        reading.of(theta),
        (2 * i) as nat,
    ) == 1real by {
        lemma_frequency_value::<U>(reading, theta, head_dim, i, r@[i]);
    }
}

/// The first inverse frequency is one, whatever the base and the head size.
pub proof fn law_the_first_frequency_is_one<U: FloatUnit>(
    head_dim: usize,
    theta: Single,
    r: Vec<Single>,
)
    requires
        crate::float::powers_are_plain::<U>(),
        head_dim >= 2,
        call_ensures(compute_inv_freq_standard::<U>, (head_dim, theta), r),
    ensures
        r@.len() > 0,
        r@[0] == Single::one(),
{
    let a = r@[0];
    assert(rope_llama3::frequency_gives::<U>(theta, head_dim, 0, a));
}

/// To the base one, every inverse frequency is one.
pub proof fn law_base_one_gives_ones<U: FloatUnit>(head_dim: usize, r: Vec<Single>, i: int)
    requires
        crate::float::powers_are_plain::<U>(),
        call_ensures(compute_inv_freq_standard::<U>, (head_dim, Single::one()), r),
        0 <= i < r@.len(),
    ensures
        r@[i] == Single::one(),
{
    let a = r@[i];
    assert(rope_llama3::frequency_gives::<U>(Single::one(), head_dim, i, a));
}

/// Half way along the frequencies stands the inverse of the square root of the given base.
pub proof fn law_half_way_stands_the_inverse_root<U: FloatUnit>(
    head_dim: usize,
    theta: Single,
    r: Vec<Single>,
) -> (root: Single)
    requires
        crate::float::powers_are_plain::<U>(),
        Single::zero().less(theta),
        head_dim > 0,
        head_dim as nat % 4 == 0,
        call_ensures(compute_inv_freq_standard::<U>, (head_dim, theta), r),
    ensures
        head_dim as nat / 4 < r@.len(),
        Single::roots::<U>(theta, root),
        Single::divides::<U>(Single::one(), root, r@[head_dim as int / 4]),
{
    let i = head_dim as int / 4;
    let a = r@[i];
    assert(rope_llama3::frequency_gives::<U>(theta, head_dim, i, a));
    let (num, den, e, p) = choose|num: Single, den: Single, e: Single, p: Single|
        #![trigger Single::divides::<U>(num, den, e), Single::raises::<U>(theta, e, p)]
        {
            &&& Single::converts::<U>((2 * i) as usize, num)
            &&& Single::converts::<U>(head_dim, den)
            &&& Single::divides::<U>(num, den, e)
            &&& Single::raises::<U>(theta, e, p)
            &&& Single::divides::<U>(Single::one(), p, a)
        };
    assert(head_dim == 2 * ((2 * i) as usize));
    p
}

/// Where nothing rounds, the scaling of one frequency, told without its wavelength: `tau` is the
/// full circle, so that the wavelength of `x` is `tau / x`.
proof fn lemma_scaled_value<U: FloatUnit>(
    reading: Reading,
    scaling: Llama3Scaling,
    freq: Single,
    low: Single,
    high: Single,
    r: Single,
)
    requires
        reading.never_rounds::<U>(),
        reading.of(freq) > 0real,
        reading.of(scaling.low_freq_factor) > 0real,
        reading.of(scaling.high_freq_factor) > 0real,
        scaling.bounds_give::<U>(low, high),
        scaling.scaled_gives::<U>(freq, low, high, r),
    ensures
        scaled_as(
            reading.of(Single::two_pi()),
            reading.of(scaling.factor),
            reading.of(scaling.low_freq_factor),
            reading.of(scaling.high_freq_factor),
            reading.of(scaling.original_max_position_embeddings),
            reading.of(freq),
            reading.of(r),
        ),
{
    let wavelen = choose|wavelen: Single|
        Single::divides::<U>(Single::two_pi(), freq, wavelen)
            && #[trigger] scaling.scaled_wave_gives::<U>(freq, wavelen, low, high, r);
    let cut = choose|cut: Single|
        #[trigger] scaling.cut_gives::<U>(freq, wavelen, low, cut)
            && if Llama3Scaling::in_band(wavelen, low, high) {
            scaling.smoothed_gives::<U>(wavelen, cut, r)
        } else {
            r == cut
        };
    let tau = reading.of(Single::two_pi());
    let f = reading.of(scaling.factor);
    let l = reading.of(scaling.low_freq_factor);
    let h = reading.of(scaling.high_freq_factor);
    let context = reading.of(scaling.original_max_position_embeddings);
    let x = reading.of(freq);
    let w = reading.of(wavelen);
    let lo = reading.of(low);
    let hi = reading.of(high);
    assert(w * x == tau && lo * l == context && hi * h == context);
    assert((lo < w) == (context * x < tau * l)) by {
        assert(l * x > 0real) by (nonlinear_arith)
            requires
                x > 0real,
                l > 0real,
        ;
        exact::lemma_less_scales(lo, w, l * x);
        exact::lemma_reorders(lo, l, x);
        exact::lemma_reorders(w, l, x);
    }
    assert((w < hi) == (tau * h < context * x)) by {
        assert(h * x > 0real) by (nonlinear_arith)
            requires
                x > 0real,
                h > 0real,
        ;
        exact::lemma_less_scales(w, hi, h * x);
        exact::lemma_reorders(hi, h, x);
        exact::lemma_reorders(w, h, x);
    }
    assert(low.less(wavelen) == (lo < w));
    assert(wavelen.less(high) == (w < hi));
    assert(Llama3Scaling::in_band(wavelen, low, high) == (!(w < hi) && !(lo < w)));
    if Llama3Scaling::in_band(wavelen, low, high) {
        assert(cut == freq);
        let s = choose|s: Single|
            scaling.smooth_factor_gives::<U>(wavelen, s) && #[trigger] scaling.blend_gives::<U>(
                s,
                cut,
                r,
            );
        lemma_blend_value::<U>(reading, scaling, wavelen, freq, s, r);
        lemma_blend_by_frequency(tau, f, l, h, context, x, w, reading.of(r));
    }
}

/// The blend, told by the distances of the wavelength from the two bounds.
proof fn lemma_blend_value<U: FloatUnit>(
    reading: Reading,
    scaling: Llama3Scaling,
    wavelen: Single,
    freq: Single,
    s: Single,
    r: Single,
)
    requires
        reading.never_rounds::<U>(),
        scaling.smooth_factor_gives::<U>(wavelen, s),
        scaling.blend_gives::<U>(s, freq, r),
    ensures
        ({
            let f = reading.of(scaling.factor);
            let l = reading.of(scaling.low_freq_factor);
            let h = reading.of(scaling.high_freq_factor);
            let context = reading.of(scaling.original_max_position_embeddings);
            let x = reading.of(freq);
            let w = reading.of(wavelen);
            ((reading.of(r) * f) * (h - l)) * w == (x * h) * w - context * x + ((context - l * w) * x)
                * f
        }),
{
    let (turns, above, width) = choose|turns: Single, above: Single, width: Single|
        #![trigger Single::subtracts::<U>(turns, scaling.low_freq_factor, above), Single::divides::<U>(above, width, s)]
        {
            &&& Single::divides::<U>(scaling.original_max_position_embeddings, wavelen, turns)
            &&& Single::subtracts::<U>(turns, scaling.low_freq_factor, above)
            &&& Single::subtracts::<U>(scaling.high_freq_factor, scaling.low_freq_factor, width)
            &&& Single::divides::<U>(above, width, s)
        };
    let (rest, product, scaled, kept) = choose|
        rest: Single,
        product: Single,
        scaled: Single,
        kept: Single,
    |
        #![trigger Single::multiplies::<U>(rest, freq, product), Single::adds::<U>(scaled, kept, r)]
        {
            &&& Single::subtracts::<U>(Single::one(), s, rest)
            &&& Single::multiplies::<U>(rest, freq, product)
            &&& Single::divides::<U>(product, scaling.factor, scaled)
            &&& Single::multiplies::<U>(s, freq, kept)
            &&& Single::adds::<U>(scaled, kept, r)
        };
    let f = reading.of(scaling.factor);
    let l = reading.of(scaling.low_freq_factor);
    let h = reading.of(scaling.high_freq_factor);
    let context = reading.of(scaling.original_max_position_embeddings);
    let x = reading.of(freq);
    let w = reading.of(wavelen);
    let t = reading.of(turns);
    let v = reading.of(s);
    let a = reading.of(scaled);
    let y = reading.of(r);
    assert(t * w == context && v * (h - l) == t - l);
    assert(a * f == (1real - v) * x && y == a + v * x);
    lemma_blend_steps(f, l, h, context, x, w, t, v, a, y);
}

/// The arithmetic of the blend.
proof fn lemma_blend_steps(
    f: real,
    l: real,
    h: real,
    context: real,
    x: real,
    w: real,
    t: real,
    v: real,
    a: real,
    y: real,
)
    requires
        t * w == context,
        v * (h - l) == t - l,
        a * f == (1real - v) * x,
        y == a + v * x,
    ensures
        ((y * f) * (h - l)) * w == (x * h) * w - context * x + ((context - l * w) * x) * f,
{
    let d = h - l;
    let k = v * x;
    let kf = k * f;
    exact::lemma_distributes(1real, v, x);
    assert(1real * x == x) by (nonlinear_arith);
    assert(a * f == x - k);
    exact::lemma_distributes(a, k, f);
    let yf = y * f;
    assert(yf == x - k + kf);
    exact::lemma_distributes(x - k, kf, d);
    exact::lemma_distributes(x, k, d);
    assert(yf * d == x * d - k * d + kf * d);
    let m = k * d;
    exact::lemma_reorders(v, x, d);
    assert(m == (t - l) * x);
    exact::lemma_distributes(t, l, x);
    exact::lemma_reorders(k, f, d);
    assert(kf * d == m * f);
    exact::lemma_distributes(h, l, x);
    exact::lemma_reorders(l, x, d);
    let yfd = yf * d;
    let xh = x * h;
    let tx = t * x;
    let mf = m * f;
    assert(yfd == xh - tx + mf);
    exact::lemma_distributes(xh - tx, mf, w);
    exact::lemma_distributes(xh, tx, w);
    exact::lemma_reorders(t, x, w);
    assert(tx * w == context * x);
    exact::lemma_reorders(m, f, w);
    assert(mf * w == (m * w) * f);
    exact::lemma_reorders(t - l, x, w);
    exact::lemma_distributes(t, l, w);
    assert(m * w == (context - l * w) * x);
}

/// The blend, with the wavelength `w` of `x` told by the full circle: `w * x` is `tau`.
proof fn lemma_blend_by_frequency(
    tau: real,
    f: real,
    l: real,
    h: real,
    context: real,
    x: real,
    w: real,
    y: real,
)
    requires
        w * x == tau,
        ((y * f) * (h - l)) * w == (x * h) * w - context * x + ((context - l * w) * x) * f,
    ensures
        y * f * (h - l) * tau == x * ((h * tau - context * x) + f * (context * x - l * tau)),
{
    let left = (y * f) * (h - l);
    let xh = x * h;
    let cx = context * x;
    let lw = l * w;
    let q = cx - l * tau;
    exact::lemma_distributes(context, lw, x);
    exact::lemma_reorders(l, w, x);
    assert((context - lw) * x == q);
    let qf = q * f;
    exact::lemma_reorders(left, w, x);
    assert((left * w) * x == left * tau);
    exact::lemma_distributes(xh * w - cx, qf, x);
    exact::lemma_distributes(xh * w, cx, x);
    exact::lemma_reorders(xh, w, x);
    assert(left * tau == xh * tau - cx * x + qf * x);
    exact::lemma_distributes(h * tau - cx, f * q, x);
    exact::lemma_distributes(h * tau, cx, x);
    exact::lemma_reorders(x, h, tau);
    exact::lemma_reorders(x, cx, tau);
    exact::lemma_reorders(q, f, x);
    exact::lemma_reorders(f, q, x);
    exact::lemma_reorders(x, qf, tau);
    exact::lemma_reorders(x, h * tau, f);
}

/// The Llama 3 scaling of a frequency `x` to `y`, in real numbers. The wavelength of `x` is `tau / x`
/// and the bounds of the band are `context / low` and `context / high`.
///
/// Beyond the low-frequency bound `y` is `x / factor`. In the band `y` runs along a straight line in
/// `context / wavelength` from `x / factor` at the one end to `x` at the other. Elsewhere `y` is `x`.
pub open spec fn scaled_as(
    tau: real,
    factor: real,
    low: real,
    high: real,
    context: real,
    x: real,
    y: real,
) -> bool {
    if context * x < tau * low {
        y * factor == x
    } else if context * x <= tau * high {
        y * factor * (high - low) * tau == x * ((high * tau - context * x) + factor * (context * x
            - low * tau))
    } else {
        y == x
    }
}

/// What the Llama 3 inverse frequencies are. The rotary size is the whole part of the head size times
/// the factor, and there is a frequency for each even index below it. Where nothing rounds,
/// frequency `i` is the scaling of the positive number whose `dim`-th power, times `theta` to the
/// `2 * i`, is one. The rotary size and that number are returned.
pub proof fn law_llama3_frequencies_are_scaled_roots<U: FloatUnit>(
    reading: Reading,
    head_dim: usize,
    partial_rotary_factor: Single,
    theta: Single,
    scaling: Llama3Scaling,
    r: Vec<Single>,
    i: int,
) -> (found: (usize, real))
    requires
        reading.never_rounds::<U>(),
        reading.of(theta) > 0real,
        reading.of(partial_rotary_factor) >= 0real,
        reading.of(scaling.low_freq_factor) > 0real,
        reading.of(scaling.high_freq_factor) > 0real,
        call_ensures(
            compute_inv_freq_llama3::<U>,
            (
                head_dim,
                partial_rotary_factor,
                theta,
                scaling.factor,
                scaling.low_freq_factor,
                scaling.high_freq_factor,
                scaling.original_max_position_embeddings,
            ),
            r,
        ),
        0 <= i < r@.len(),
    ensures
        ({
            let (dim, x) = found;
            let size = exact::whole(head_dim as nat) * reading.of(partial_rotary_factor);
            &&& exact::whole(dim as nat) <= size
            &&& size < exact::whole(dim as nat + 1)
            &&& 2 * (r@.len() - 1) < dim <= 2 * r@.len()
            &&& x > 0real
            &&& exact::power(x, dim as nat) * exact::power(reading.of(theta), (2 * i) as nat)
                == 1real
            &&& scaled_as(
                reading.of(Single::two_pi()),
                reading.of(scaling.factor),
                reading.of(scaling.low_freq_factor),
                reading.of(scaling.high_freq_factor),
                reading.of(scaling.original_max_position_embeddings),
                x,
                reading.of(r@[i]),
            )
        }),
{
    lemma_llama3_values::<U>(
        reading,
        head_dim,
        partial_rotary_factor,
        theta,
        scaling,
        r@,
        i,
    )
}

pub(crate) proof fn lemma_llama3_values<U: FloatUnit>(
    reading: Reading,
    head_dim: usize,
    partial_rotary_factor: Single,
    theta: Single,
    scaling: Llama3Scaling,
    r: Seq<Single>,
    i: int,
) -> (found: (usize, real))
    requires
        reading.never_rounds::<U>(),
        reading.of(theta) > 0real,
        reading.of(partial_rotary_factor) >= 0real,
        reading.of(scaling.low_freq_factor) > 0real,
        reading.of(scaling.high_freq_factor) > 0real,
        rope_llama3::llama3_gives::<U>(head_dim, partial_rotary_factor, theta, scaling, r),
        0 <= i < r.len(),
    ensures
        ({
            let (dim, x) = found;
            let size = exact::whole(head_dim as nat) * reading.of(partial_rotary_factor);
            &&& exact::whole(dim as nat) <= size
            &&& size < exact::whole(dim as nat + 1)
            &&& 2 * (r.len() - 1) < dim <= 2 * r.len()
            &&& x > 0real
            &&& exact::power(x, dim as nat) * exact::power(reading.of(theta), (2 * i) as nat)
                == 1real
            &&& scaled_as(
                reading.of(Single::two_pi()),
                reading.of(scaling.factor),
                reading.of(scaling.low_freq_factor),
                reading.of(scaling.high_freq_factor),
                reading.of(scaling.original_max_position_embeddings),
                x,
                reading.of(r[i]),
            )
        }),
{
    let dim = choose|dim: usize|
        #![trigger rope_llama3::rotary_dim_gives::<U>(head_dim, partial_rotary_factor, dim)]
        rope_llama3::rotary_dim_gives::<U>(head_dim, partial_rotary_factor, dim)
            && scaling.frequencies_give::<U>(dim, theta, r);
    let (d, product) = choose|d: Single, product: Single|
        #![trigger Single::multiplies::<U>(d, partial_rotary_factor, product)]
        {
            &&& Single::converts::<U>(head_dim, d)
            &&& Single::multiplies::<U>(d, partial_rotary_factor, product)
            &&& Single::cuts::<U>(product, dim)
        };
    let whole = exact::whole(head_dim as nat);
    let part = reading.of(partial_rotary_factor);
    assert(whole * part >= 0real) by (nonlinear_arith)
        requires
            whole >= 0real,
            part >= 0real,
    ;
    let (base, low, high) = choose|base: Seq<Single>, low: Single, high: Single|
        #![trigger rope_llama3::even_index_gives::<U>(dim, theta, base), scaling.bounds_give::<U>(low, high)]
        {
            &&& rope_llama3::even_index_gives::<U>(dim, theta, base)
            &&& scaling.bounds_give::<U>(low, high)
            &&& r.len() == base.len()
            &&& forall|i: int|
                0 <= i < base.len() ==> scaling.scaled_gives::<U>(
                    base[i],
                    low,
                    high,
                    #[trigger] r[i],
                )
        };
    let freq = base[i];
    lemma_frequency_value::<U>(reading, theta, dim, i, freq);
    let y = r[i];
    assert(scaling.scaled_gives::<U>(freq, low, high, y));
    lemma_scaled_value::<U>(reading, scaling, freq, low, high, y);
    (dim, reading.of(freq))
}

/// With a factor of one, the scaling keeps every frequency, whatever the band.
pub proof fn law_factor_one_keeps_every_frequency(
    tau: real,
    low: real,
    high: real,
    context: real,
    x: real,
    y: real,
)
    requires
        tau != 0real,
        low != high,
        scaled_as(tau, 1real, low, high, context, x, y),
    ensures
        y == x,
{
    if !(context * x < tau * low) && context * x <= tau * high {
        let d = high - low;
        let cx = context * x;
        let q = cx - low * tau;
        assert(y * 1real == y) by (nonlinear_arith);
        assert(1real * q == q) by (nonlinear_arith);
        exact::lemma_distributes(high, low, tau);
        assert((high * tau - cx) + 1real * q == d * tau);
        exact::lemma_reorders(y, d, tau);
        assert(d * tau != 0real) by (nonlinear_arith)
            requires
                d != 0real,
                tau != 0real,
        ;
        exact::lemma_cancels(y, x, d * tau);
    } else {
        assert(y * 1real == y) by (nonlinear_arith);
    }
}

/// The smoothed band joins the two outer ones. At the low-frequency end, where the context length is
/// `low_freq_factor` wavelengths, a smoothed frequency is divided by the scaling's own factor. At
/// the high-frequency end, where it is `high_freq_factor` wavelengths, it is kept.
pub proof fn law_smoothing_joins_the_bands<U: FloatUnit>(
    scaling: Llama3Scaling,
    wavelen: Single,
    freq: Single,
    r: Single,
) -> (divided: Single)
    requires
        crate::float::one_result::<U>(),
        crate::float::blends_are_plain::<U>(),
        freq.finite(),
        scaling.factor.finite(),
        scaling.factor.rank() != 0,
        scaling.low_freq_factor.finite(),
        scaling.high_freq_factor.finite(),
        forall|width: Single| #[trigger]
            Single::subtracts::<U>(scaling.high_freq_factor, scaling.low_freq_factor, width)
                ==> width.finite() && width.rank() != 0,
        forall|x: Single| #[trigger] Single::divides::<U>(freq, scaling.factor, x) ==> x.finite(),
        scaling.smoothed_gives::<U>(wavelen, freq, r),
    ensures
        Single::divides::<U>(
            scaling.original_max_position_embeddings,
            wavelen,
            scaling.low_freq_factor,
        ) ==> Single::divides::<U>(freq, scaling.factor, divided) && r.same_value(divided),
        Single::divides::<U>(
            scaling.original_max_position_embeddings,
            wavelen,
            scaling.high_freq_factor,
        ) ==> r.same_value(freq),
{
    let s = choose|s: Single|
        scaling.smooth_factor_gives::<U>(wavelen, s) && #[trigger] scaling.blend_gives::<U>(
            s,
            freq,
            r,
        );
    let (turns, above, width) = choose|turns: Single, above: Single, width: Single|
        #![trigger Single::subtracts::<U>(turns, scaling.low_freq_factor, above), Single::divides::<U>(above, width, s)]
        {
            &&& Single::divides::<U>(scaling.original_max_position_embeddings, wavelen, turns)
            &&& Single::subtracts::<U>(turns, scaling.low_freq_factor, above)
            &&& Single::subtracts::<U>(scaling.high_freq_factor, scaling.low_freq_factor, width)
            &&& Single::divides::<U>(above, width, s)
        };
    let (rest, product, scaled, kept) = choose|
        rest: Single,
        product: Single,
        scaled: Single,
        kept: Single,
    |
        #![trigger Single::multiplies::<U>(rest, freq, product), Single::adds::<U>(scaled, kept, r)]
        {
            &&& Single::subtracts::<U>(Single::one(), s, rest)
            &&& Single::multiplies::<U>(rest, freq, product)
            &&& Single::divides::<U>(product, scaling.factor, scaled)
            &&& Single::multiplies::<U>(s, freq, kept)
            &&& Single::adds::<U>(scaled, kept, r)
        };
    if Single::divides::<U>(
        scaling.original_max_position_embeddings,
        wavelen,
        scaling.low_freq_factor,
    ) {
        assert(turns == scaling.low_freq_factor);
        assert(above == Single::zero());
        assert(s.rank() == 0);
        assert(rest == Single::one());
        assert(product == freq);
        assert(kept.rank() == 0);
    }
    if Single::divides::<U>(
        scaling.original_max_position_embeddings,
        wavelen,
        scaling.high_freq_factor,
    ) {
        assert(turns == scaling.high_freq_factor);
        assert(above == width);
        assert(s == Single::one());
        assert(rest == Single::zero());
        assert(product.rank() == 0);
        assert(scaled.rank() == 0);
        assert(kept == freq);
    }
    scaled
}

impl Reading {
    /// Cosine and sine are those of an angle: the addition theorems hold, and the point they give
    /// lies on the unit circle.
    pub open spec fn circular(self) -> bool {
        &&& (self.cos)(0real) == 1real
        &&& (self.sin)(0real) == 0real
        &&& forall|a: real, b: real| #[trigger]
            (self.cos)(a + b) == (self.cos)(a) * (self.cos)(b) - (self.sin)(a) * (self.sin)(b)
        &&& forall|a: real, b: real| #[trigger]
            (self.sin)(a + b) == (self.sin)(a) * (self.cos)(b) + (self.cos)(a) * (self.sin)(b)
        &&& forall|a: real| #[trigger]
            (self.cos)(a) * (self.cos)(a) + (self.sin)(a) * (self.sin)(a) == 1real
    }

    /// The tables hold cosine and sine of each position times each frequency.
    pub open spec fn tabulates(self, cache: &RopeCosSinCache, inv_freq: Seq<Single>) -> bool {
        forall|pos: int, i: int|
            #![trigger cache.cos@[pos * cache.half_dim + i]]
            #![trigger cache.sin@[pos * cache.half_dim + i]]
            0 <= pos < cache.max_seq_len && 0 <= i < cache.half_dim ==> {
                let angle = exact::whole(pos as nat) * self.of(inv_freq[i]);
                &&& self.of(cache.cos@[pos * cache.half_dim + i]) == (self.cos)(angle)
                &&& self.of(cache.sin@[pos * cache.half_dim + i]) == (self.sin)(angle)
            }
    }
}

/// What the tables are: one entry per position and frequency, in this order, and where nothing
/// rounds, cosine and sine of the position times the frequency.
pub proof fn law_tables_hold_cosine_and_sine<U: FloatUnit>(
    reading: Reading,
    inv_freq: &[Single],
    max_seq_len: usize,
    head_dim: usize,
    cache: RopeCosSinCache,
)
    requires
        reading.never_rounds::<U>(),
        call_ensures(
            RopeCosSinCache::from_inv_freq::<U>,
            (inv_freq, max_seq_len, head_dim),
            cache,
        ),
    ensures
        cache.max_seq_len == max_seq_len,
        cache.half_dim == head_dim as nat / 2,
        cache.cos@.len() == max_seq_len * (head_dim as nat / 2),
        cache.sin@.len() == max_seq_len * (head_dim as nat / 2),
        reading.tabulates(&cache, inv_freq@),
{
    lemma_built_tables::<U>(reading, &cache, inv_freq@);
}

pub(crate) proof fn lemma_built_tables<U: FloatUnit>(
    reading: Reading,
    cache: &RopeCosSinCache,
    inv_freq: Seq<Single>,
)
    requires
        reading.never_rounds::<U>(),
        cache.built_from::<U>(inv_freq),
    ensures
        reading.tabulates(cache, inv_freq),
{
    assert forall|pos: int, i: int|
        #![trigger cache.cos@[pos * cache.half_dim + i]]
        #![trigger cache.sin@[pos * cache.half_dim + i]]
        0 <= pos < cache.max_seq_len && 0 <= i < cache.half_dim implies {
        let angle = exact::whole(pos as nat) * reading.of(inv_freq[i]);
        &&& reading.of(cache.cos@[pos * cache.half_dim + i]) == (reading.cos)(angle)
        &&& reading.of(cache.sin@[pos * cache.half_dim + i]) == (reading.sin)(angle)
    } by {
        assert(rope_llama3::angle_gives::<U>(
            pos as usize,
            inv_freq[i],
            cache.cos@[pos * cache.half_dim + i],
            cache.sin@[pos * cache.half_dim + i],
        ));
    }
}

/// Positions add up: the entries of position `p + q` are those of `p`, turned by those of `q`.
pub proof fn law_positions_add_up<U: FloatUnit>(
    reading: Reading,
    inv_freq: &[Single],
    max_seq_len: usize,
    head_dim: usize,
    cache: RopeCosSinCache,
    p: nat,
    q: nat,
    i: int,
)
    requires
        reading.never_rounds::<U>(),
        reading.circular(),
        call_ensures(
            RopeCosSinCache::from_inv_freq::<U>,
            (inv_freq, max_seq_len, head_dim),
            cache,
        ),
        p + q < max_seq_len,
        0 <= i < head_dim as nat / 2,
    ensures
        ({
            let half = head_dim as nat / 2;
            let cos = |pos: nat| reading.of(cache.cos@[pos * half + i]);
            let sin = |pos: nat| reading.of(cache.sin@[pos * half + i]);
            &&& cos(p + q) == cos(p) * cos(q) - sin(p) * sin(q)
            &&& sin(p + q) == sin(p) * cos(q) + cos(p) * sin(q)
        }),
{
    law_tables_hold_cosine_and_sine::<U>(reading, inv_freq, max_seq_len, head_dim, cache);
    let half = cache.half_dim as int;
    let f = reading.of(inv_freq@[i]);
    let sum = (p + q) as int;
    let a = exact::whole(p) * f;
    let b = exact::whole(q) * f;
    let c = cache.cos@[p as int * cache.half_dim + i];
    let d = cache.cos@[q as int * cache.half_dim + i];
    let e = cache.cos@[sum * cache.half_dim + i];
    exact::lemma_distributes(exact::whole(p), exact::whole(q), f);
    assert(exact::whole((p + q) as nat) * f == a + b);
    assert((reading.cos)(a + b) == (reading.cos)(a) * (reading.cos)(b) - (reading.sin)(a) * (
    reading.sin)(b));
    assert((reading.sin)(a + b) == (reading.sin)(a) * (reading.cos)(b) + (reading.cos)(a) * (
    reading.sin)(b));
}

/// What a rotation does: where nothing rounds, pair `i` of head `h` of token `t` is turned by the
/// token's position times frequency `i`, counter-clockwise.
pub proof fn law_rotation_turns_by_the_angle<U: FloatUnit>(
    reading: Reading,
    cache: &RopeCosSinCache,
    inv_freq: Seq<Single>,
    before: Seq<Half>,
    positions: Seq<u32>,
    num_heads: nat,
    head_dim: nat,
    n: nat,
    after: Seq<Half>,
    t: int,
    h: int,
    i: int,
)
    requires
        reading.never_rounds::<U>(),
        cache.built_from::<U>(inv_freq),
        cache.turns_each::<U>(before, positions, num_heads, head_dim, n, after),
        0 <= t < n,
        positions[t] < cache.max_seq_len,
        0 <= h < num_heads,
        0 <= i < cache.half_dim,
    ensures
        ({
            let at = t * (num_heads * head_dim) + h * head_dim + 2 * i;
            let angle = exact::whole(positions[t] as nat) * reading.of(inv_freq[i]);
            let c = (reading.cos)(angle);
            let s = (reading.sin)(angle);
            let x = reading.of_half(before[at]);
            let y = reading.of_half(before[at + 1]);
            &&& reading.of_half(after[at]) == x * c - y * s
            &&& reading.of_half(after[at + 1]) == x * s + y * c
        }),
{
    lemma_built_tables::<U>(reading, cache, inv_freq);
    let at = rope_llama3::pair_at(t, h, i, num_heads as int, head_dim as int);
    let c = cache.cos@[positions[t] * cache.half_dim + i];
    let s = cache.sin@[positions[t] * cache.half_dim + i];
    assert(rope_llama3::turns::<U>(c, s, before[at], before[at + 1], after[at], after[at + 1]));
}

/// A rotation keeps lengths: where nothing rounds, the squares of a pair add up to the same.
pub proof fn law_rotation_keeps_lengths<U: FloatUnit>(
    reading: Reading,
    cache: &RopeCosSinCache,
    inv_freq: Seq<Single>,
    before: Seq<Half>,
    positions: Seq<u32>,
    num_heads: nat,
    head_dim: nat,
    n: nat,
    after: Seq<Half>,
    t: int,
    h: int,
    i: int,
)
    requires
        reading.never_rounds::<U>(),
        reading.circular(),
        cache.built_from::<U>(inv_freq),
        cache.turns_each::<U>(before, positions, num_heads, head_dim, n, after),
        0 <= t < n,
        positions[t] < cache.max_seq_len,
        0 <= h < num_heads,
        0 <= i < cache.half_dim,
    ensures
        ({
            let at = t * (num_heads * head_dim) + h * head_dim + 2 * i;
            let square = |x: Half| reading.of_half(x) * reading.of_half(x);
            square(after[at]) + square(after[at + 1]) == square(before[at]) + square(before[at + 1])
        }),
{
    law_rotation_turns_by_the_angle::<U>(
        reading,
        cache,
        inv_freq,
        before,
        positions,
        num_heads,
        head_dim,
        n,
        after,
        t,
        h,
        i,
    );
    let at = t * (num_heads * head_dim) + h * head_dim + 2 * i;
    let angle = exact::whole(positions[t] as nat) * reading.of(inv_freq[i]);
    lemma_turned_length(
        (reading.cos)(angle),
        (reading.sin)(angle),
        reading.of_half(before[at]),
        reading.of_half(before[at + 1]),
    );
}

proof fn lemma_turned_length(c: real, s: real, x: real, y: real)
    requires
        c * c + s * s == 1real,
    ensures
        (x * c - y * s) * (x * c - y * s) + (x * s + y * c) * (x * s + y * c) == x * x + y * y,
{
    let xc = x * c;
    let ys = y * s;
    let xs = x * s;
    let yc = y * c;
    let cc = c * c;
    let ss = s * s;
    let xx = x * x;
    let yy = y * y;
    exact::lemma_distributes(xc, ys, xc - ys);
    exact::lemma_distributes(xc, ys, xc);
    exact::lemma_distributes(xc, ys, ys);
    exact::lemma_distributes(xs, yc, xs + yc);
    exact::lemma_distributes(xs, yc, xs);
    exact::lemma_distributes(xs, yc, yc);
    exact::lemma_reorders(xc, ys, 1real);
    exact::lemma_reorders(xs, yc, 1real);
    exact::lemma_pairs_anew(x, c, x, c);
    exact::lemma_pairs_anew(y, s, y, s);
    exact::lemma_pairs_anew(x, s, x, s);
    exact::lemma_pairs_anew(y, c, y, c);
    exact::lemma_pairs_anew(x, c, y, s);
    exact::lemma_pairs_anew(x, s, y, c);
    exact::lemma_reorders(c, s, 1real);
    assert(xc * ys == xs * yc);
    assert((xc - ys) * (xc - ys) == xx * cc - xc * ys - xc * ys + yy * ss);
    assert((xs + yc) * (xs + yc) == xx * ss + xs * yc + xs * yc + yy * cc);
    exact::lemma_distributes(cc, ss, xx);
    exact::lemma_distributes(cc, ss, yy);
    assert(xx * 1real == xx && yy * 1real == yy) by (nonlinear_arith);
}

/// Rotations add up: rotating a pair by position `p` and then by position `q` is rotating it by
/// `p + q`, where nothing rounds.
pub proof fn law_rotations_add_up<U: FloatUnit>(
    reading: Reading,
    cache: &RopeCosSinCache,
    inv_freq: Seq<Single>,
    num_heads: nat,
    head_dim: nat,
    n: nat,
    before: Seq<Half>,
    first: Seq<u32>,
    middle: Seq<Half>,
    second: Seq<u32>,
    after: Seq<Half>,
    sum: Seq<u32>,
    at_once: Seq<Half>,
    t: int,
    h: int,
    i: int,
)
    requires
        reading.never_rounds::<U>(),
        reading.circular(),
        cache.built_from::<U>(inv_freq),
        cache.turns_each::<U>(before, first, num_heads, head_dim, n, middle),
        cache.turns_each::<U>(middle, second, num_heads, head_dim, n, after),
        cache.turns_each::<U>(before, sum, num_heads, head_dim, n, at_once),
        0 <= t < n,
        sum[t] == first[t] + second[t],
        sum[t] < cache.max_seq_len,
        0 <= h < num_heads,
        0 <= i < cache.half_dim,
    ensures
        ({
            let at = t * (num_heads * head_dim) + h * head_dim + 2 * i;
            &&& reading.of_half(after[at]) == reading.of_half(at_once[at])
            &&& reading.of_half(after[at + 1]) == reading.of_half(at_once[at + 1])
        }),
{
    law_rotation_turns_by_the_angle::<U>(
        reading,
        cache,
        inv_freq,
        before,
        first,
        num_heads,
        head_dim,
        n,
        middle,
        t,
        h,
        i,
    );
    law_rotation_turns_by_the_angle::<U>(
        reading,
        cache,
        inv_freq,
        middle,
        second,
        num_heads,
        head_dim,
        n,
        after,
        t,
        h,
        i,
    );
    law_rotation_turns_by_the_angle::<U>(
        reading,
        cache,
        inv_freq,
        before,
        sum,
        num_heads,
        head_dim,
        n,
        at_once,
        t,
        h,
        i,
    );
    let at = t * (num_heads * head_dim) + h * head_dim + 2 * i;
    let f = reading.of(inv_freq[i]);
    let p = exact::whole(first[t] as nat);
    let q = exact::whole(second[t] as nat);
    exact::lemma_distributes(p, q, f);
    let a = p * f;
    let b = q * f;
    assert(exact::whole(sum[t] as nat) * f == a + b);
    assert((reading.cos)(a + b) == (reading.cos)(a) * (reading.cos)(b) - (reading.sin)(a) * (
    reading.sin)(b));
    assert((reading.sin)(a + b) == (reading.sin)(a) * (reading.cos)(b) + (reading.cos)(a) * (
    reading.sin)(b));
    lemma_turned_twice(
        (reading.cos)(a),
        (reading.sin)(a),
        (reading.cos)(b),
        (reading.sin)(b),
        reading.of_half(before[at]),
        reading.of_half(before[at + 1]),
    );
}

proof fn lemma_turned_twice(c: real, s: real, d: real, e: real, x: real, y: real)
    ensures
        (x * c - y * s) * d - (x * s + y * c) * e == x * (c * d - s * e) - y * (s * d + c * e),
        (x * c - y * s) * e + (x * s + y * c) * d == x * (s * d + c * e) + y * (c * d - s * e),
{
    exact::lemma_distributes(x * c, y * s, d);
    exact::lemma_distributes(x * c, y * s, e);
    exact::lemma_distributes(x * s, y * c, d);
    exact::lemma_distributes(x * s, y * c, e);
    exact::lemma_reorders(x, c, d);
    exact::lemma_reorders(y, s, d);
    exact::lemma_reorders(x, s, e);
    exact::lemma_reorders(y, c, e);
    exact::lemma_reorders(x, c, e);
    exact::lemma_reorders(y, s, e);
    exact::lemma_reorders(x, s, d);
    exact::lemma_reorders(y, c, d);
    exact::lemma_distributes(c * d, s * e, x);
    exact::lemma_distributes(s * d, c * e, y);
    exact::lemma_distributes(s * d, c * e, x);
    exact::lemma_distributes(c * d, s * e, y);
}

/// A rotation leaves the rest alone, bit for bit: tokens whose position lies beyond the tables,
/// components beyond the last pair of a head, and everything after the last rotated row.
pub proof fn law_rotation_leaves_the_rest<U: FloatUnit>(
    cache: &RopeCosSinCache,
    before: Seq<Half>,
    positions: Seq<u32>,
    num_heads: nat,
    head_dim: nat,
    n: nat,
    after: Seq<Half>,
    idx: int,
)
    requires
        cache.turns_each::<U>(before, positions, num_heads, head_dim, n, after),
        0 <= idx < before.len(),
        idx >= n * (num_heads * head_dim) || (head_dim > 0 && num_heads > 0 && ({
            let t = idx / (num_heads * head_dim) as int;
            let c = (idx % (num_heads * head_dim) as int) % head_dim as int;
            positions[t] >= cache.max_seq_len || c >= 2 * cache.half_dim
        })),
    ensures
        after.len() == before.len(),
        after[idx] == before[idx],
{
    let heads = num_heads as int;
    let dim = head_dim as int;
    let stride = heads * dim;
    if idx < n * stride {
        assert(stride > 0) by (nonlinear_arith)
            requires
                stride == heads * dim,
                heads > 0,
                dim > 0,
        ;
        let t = idx / stride;
        let rest = idx % stride;
        vstd::arithmetic::div_mod::lemma_fundamental_div_mod(idx, stride);
        assert(0 <= t < n && idx == t * stride + rest) by (nonlinear_arith)
            requires
                idx == stride * t + rest,
                0 <= rest < stride,
                0 <= idx < n * stride,
        ;
        let h = rest / dim;
        let c = rest % dim;
        vstd::arithmetic::div_mod::lemma_fundamental_div_mod(rest, dim);
        assert(0 <= h < heads && rest == h * dim + c) by (nonlinear_arith)
            requires
                rest == dim * h + c,
                0 <= c < dim,
                0 <= rest < heads * dim,
        ;
        assert(rope_llama3::component_at(t, h, c, heads, dim) == idx);
    }
}

/// Which rows are rotated: those of the tokens that have a position, all of them.
pub proof fn law_tokens_with_a_position_are_rotated(positions: Seq<u32>, num_tokens: nat, t: int)
    ensures
        (0 <= t < rope_llama3::rotated_rows(positions, num_tokens)) == (0 <= t < num_tokens && t
            < positions.len()),
{
}

/// At position one the tables hold cosine and sine of the frequencies themselves, at full precision.
pub proof fn law_position_one_holds_the_frequency<U: FloatUnit>(
    inv_freq: &[Single],
    max_seq_len: usize,
    head_dim: usize,
    cache: RopeCosSinCache,
    i: int,
)
    requires
        crate::float::exact_identities::<U>(),
        forall|r: Single| #[trigger] call_ensures(U::from_usize, (1usize,), r) ==> r == Single::one(),
        call_ensures(
            RopeCosSinCache::from_inv_freq::<U>,
            (inv_freq, max_seq_len, head_dim),
            cache,
        ),
        max_seq_len > 1,
        0 <= i < head_dim as nat / 2,
        !inv_freq@[i].undefined(),
    ensures
        call_ensures(U::cosine, (inv_freq@[i],), cache.cos@[head_dim as nat / 2 + i]),
        call_ensures(U::sine, (inv_freq@[i],), cache.sin@[head_dim as nat / 2 + i]),
{
    let half = cache.half_dim as int;
    assert(1 * half + i == half + i);
    let c = cache.cos@[1 * cache.half_dim + i];
    let s = cache.sin@[1 * cache.half_dim + i];
    assert(rope_llama3::angle_gives::<U>(1, inv_freq@[i], c, s));
}

/// Position and frequency trade places: an entry of position `pos` and frequency `f` is the entry of
/// position one and the frequency that is `pos` times `f`, rounded once.
pub proof fn law_a_position_multiplies_the_frequency<U: FloatUnit>(
    inv_freq: &[Single],
    max_seq_len: usize,
    head_dim: usize,
    cache: RopeCosSinCache,
    pos: int,
    i: int,
) -> (found: (Single, Single))
    requires
        call_ensures(
            RopeCosSinCache::from_inv_freq::<U>,
            (inv_freq, max_seq_len, head_dim),
            cache,
        ),
        0 <= pos < max_seq_len,
        0 <= i < head_dim as nat / 2,
    ensures
        call_ensures(U::from_usize, (pos as usize,), found.0),
        call_ensures(U::times, (found.0, inv_freq@[i]), found.1),
        call_ensures(U::cosine, (found.1,), cache.cos@[pos * (head_dim as nat / 2) + i]),
        call_ensures(U::sine, (found.1,), cache.sin@[pos * (head_dim as nat / 2) + i]),
{
    let c = cache.cos@[pos * cache.half_dim + i];
    let s = cache.sin@[pos * cache.half_dim + i];
    assert(rope_llama3::angle_gives::<U>(pos as usize, inv_freq@[i], c, s));
    choose|p: Single, theta: Single|
        #![trigger Single::multiplies::<U>(p, inv_freq@[i], theta)]
        {
            &&& Single::converts::<U>(pos as usize, p)
            &&& Single::multiplies::<U>(p, inv_freq@[i], theta)
            &&& Single::has_cosine::<U>(theta, c)
            &&& Single::has_sine::<U>(theta, s)
        }
}

/// An inverse frequency, times the power of the base that it inverts, is told by the unit's own power
/// at full precision: the exponent is the quotient of `2 * i` and the head size, and nothing is
/// rounded in between.
pub proof fn law_a_frequency_inverts_a_power_of_the_base<U: FloatUnit>(
    head_dim: usize,
    theta: Single,
    r: Vec<Single>,
    i: int,
) -> (found: (Single, Single, Single, Single))
    requires
        call_ensures(compute_inv_freq_standard::<U>, (head_dim, theta), r),
        0 <= i < head_dim as nat / 2,
    ensures
        r@.len() == head_dim as nat / 2,
        call_ensures(U::from_usize, ((2 * i) as usize,), found.0),
        call_ensures(U::from_usize, (head_dim,), found.1),
        call_ensures(U::over, (found.0, found.1), found.2),
        call_ensures(U::power, (theta, found.2), found.3),
        call_ensures(U::over, (Single::one(), found.3), r@[i]),
{
    let a = r@[i];
    assert(rope_llama3::frequency_gives::<U>(theta, head_dim, i, a));
    choose|num: Single, den: Single, e: Single, p: Single|
        #![trigger Single::divides::<U>(num, den, e), Single::raises::<U>(theta, e, p)]
        {
            &&& Single::converts::<U>((2 * i) as usize, num)
            &&& Single::converts::<U>(head_dim, den)
            &&& Single::divides::<U>(num, den, e)
            &&& Single::raises::<U>(theta, e, p)
            &&& Single::divides::<U>(Single::one(), p, a)
        }
}

/// A pair is rotated at full precision: each component is rounded once to a product, once to the sum
/// or difference of two products, and once to 16 bits.
pub proof fn law_a_pair_is_rounded_once<U: FloatUnit>(
    cache: &RopeCosSinCache,
    before: Seq<Half>,
    positions: Seq<u32>,
    num_heads: nat,
    head_dim: nat,
    n: nat,
    after: Seq<Half>,
    t: int,
    h: int,
    i: int,
) -> (found: ((Single, Single), (Single, Single, Single), (Single, Single, Single)))
    requires
        cache.turns_each::<U>(before, positions, num_heads, head_dim, n, after),
        0 <= t < n,
        positions[t] < cache.max_seq_len,
        0 <= h < num_heads,
        0 <= i < cache.half_dim,
    ensures
        ({
            let at = t * (num_heads * head_dim) + h * head_dim + 2 * i;
            let c = cache.cos@[positions[t] * cache.half_dim + i];
            let s = cache.sin@[positions[t] * cache.half_dim + i];
            let ((x, y), (xc, ys, difference), (xs, yc, sum)) = found;
            &&& call_ensures(U::widen, (before[at],), x)
            &&& call_ensures(U::widen, (before[at + 1],), y)
            &&& call_ensures(U::times, (x, c), xc)
            &&& call_ensures(U::times, (y, s), ys)
            &&& call_ensures(U::minus, (xc, ys), difference)
            &&& call_ensures(U::narrow, (difference,), after[at])
            &&& call_ensures(U::times, (x, s), xs)
            &&& call_ensures(U::times, (y, c), yc)
            &&& call_ensures(U::plus, (xs, yc), sum)
            &&& call_ensures(U::narrow, (sum,), after[at + 1])
        }),
{
    let at = rope_llama3::pair_at(t, h, i, num_heads as int, head_dim as int);
    let c = cache.cos@[positions[t] * cache.half_dim + i];
    let s = cache.sin@[positions[t] * cache.half_dim + i];
    let y0 = after[at];
    let y1 = after[at + 1];
    assert(rope_llama3::turns::<U>(c, s, before[at], before[at + 1], y0, y1));
    let (x, y) = choose|a: Single, b: Single|
        #![trigger Single::widens::<U>(before[at], a), Single::widens::<U>(before[at + 1], b)]
        {
            &&& Single::widens::<U>(before[at], a)
            &&& Single::widens::<U>(before[at + 1], b)
            &&& rope_llama3::difference_gives::<U>(a, c, b, s, y0)
            &&& rope_llama3::sum_gives::<U>(a, s, b, c, y1)
        };
    let first = choose|p: Single, q: Single, d: Single|
        #![trigger Single::subtracts::<U>(p, q, d)]
        {
            &&& Single::multiplies::<U>(x, c, p)
            &&& Single::multiplies::<U>(y, s, q)
            &&& Single::subtracts::<U>(p, q, d)
            &&& Single::narrows::<U>(d, y0)
        };
    let second = choose|p: Single, q: Single, d: Single|
        #![trigger Single::adds::<U>(p, q, d)]
        {
            &&& Single::multiplies::<U>(x, s, p)
            &&& Single::multiplies::<U>(y, c, q)
            &&& Single::adds::<U>(p, q, d)
            &&& Single::narrows::<U>(d, y1)
        };
    ((x, y), first, second)
}

/// A frequency in the band is blended at full precision, by the scaling's own parameters: the
/// distances of the number of wavelengths in the context from the two factors.
pub proof fn law_a_blend_is_at_full_precision<U: FloatUnit>(
    scaling: Llama3Scaling,
    wavelen: Single,
    freq: Single,
    r: Single,
) -> (found: ((Single, Single, Single, Single), (Single, Single, Single, Single)))
    requires
        scaling.smoothed_gives::<U>(wavelen, freq, r),
    ensures
        ({
            let ((turns, above, width, s), (rest, product, scaled, kept)) = found;
            &&& call_ensures(U::over, (scaling.original_max_position_embeddings, wavelen), turns)
            &&& call_ensures(U::minus, (turns, scaling.low_freq_factor), above)
            &&& call_ensures(
                U::minus,
                (scaling.high_freq_factor, scaling.low_freq_factor),
                width,
            )
            &&& call_ensures(U::over, (above, width), s)
            &&& call_ensures(U::minus, (Single::one(), s), rest)
            &&& call_ensures(U::times, (rest, freq), product)
            &&& call_ensures(U::over, (product, scaling.factor), scaled)
            &&& call_ensures(U::times, (s, freq), kept)
            &&& call_ensures(U::plus, (scaled, kept), r)
        }),
{
    let s = choose|s: Single|
        scaling.smooth_factor_gives::<U>(wavelen, s) && #[trigger] scaling.blend_gives::<U>(
            s,
            freq,
            r,
        );
    let (turns, above, width) = choose|turns: Single, above: Single, width: Single|
        #![trigger Single::subtracts::<U>(turns, scaling.low_freq_factor, above), Single::divides::<U>(above, width, s)]
        {
            &&& Single::divides::<U>(scaling.original_max_position_embeddings, wavelen, turns)
            &&& Single::subtracts::<U>(turns, scaling.low_freq_factor, above)
            &&& Single::subtracts::<U>(scaling.high_freq_factor, scaling.low_freq_factor, width)
            &&& Single::divides::<U>(above, width, s)
        };
    let blend = choose|rest: Single, product: Single, scaled: Single, kept: Single|
        #![trigger Single::multiplies::<U>(rest, freq, product), Single::adds::<U>(scaled, kept, r)]
        {
            &&& Single::subtracts::<U>(Single::one(), s, rest)
            &&& Single::multiplies::<U>(rest, freq, product)
            &&& Single::divides::<U>(product, scaling.factor, scaled)
            &&& Single::multiplies::<U>(s, freq, kept)
            &&& Single::adds::<U>(scaled, kept, r)
        };
    ((turns, above, width, s), blend)
}

/// The Llama 3 frequencies are computed at full precision, by the unit's own operations: the rotary
/// size, the bounds of the band, the unscaled frequency and its wavelength. Beyond the low-frequency
/// bound the frequency is divided by the factor, from the high-frequency bound to the low-frequency
/// bound it is blended, and elsewhere it is the unscaled one. The size, the two bounds, the unscaled
/// frequency and its wavelength are returned.
pub proof fn law_llama3_is_at_full_precision<U: FloatUnit>(
    head_dim: usize,
    partial_rotary_factor: Single,
    theta: Single,
    scaling: Llama3Scaling,
    r: Vec<Single>,
    i: int,
) -> (found: (usize, Single, Single, Single, Single))
    requires
        call_ensures(
            compute_inv_freq_llama3::<U>,
            (
                head_dim,
                partial_rotary_factor,
                theta,
                scaling.factor,
                scaling.low_freq_factor,
                scaling.high_freq_factor,
                scaling.original_max_position_embeddings,
            ),
            r,
        ),
        0 <= i < r@.len(),
    ensures
        ({
            let (dim, low, high, freq, wavelen) = found;
            let context = scaling.original_max_position_embeddings;
            &&& exists|size: Single, product: Single|
                {
                    &&& call_ensures(U::from_usize, (head_dim,), size)
                    &&& #[trigger] call_ensures(U::times, (size, partial_rotary_factor), product)
                    &&& call_ensures(U::to_usize, (product,), dim)
                }
            &&& r@.len() == (dim as nat + 1) / 2
            &&& call_ensures(U::over, (context, scaling.low_freq_factor), low)
            &&& call_ensures(U::over, (context, scaling.high_freq_factor), high)
            &&& exists|num: Single, den: Single, e: Single, p: Single|
                #![trigger call_ensures(U::over, (num, den), e), call_ensures(U::power, (theta, e), p)]
                {
                    &&& call_ensures(U::from_usize, ((2 * i) as usize,), num)
                    &&& call_ensures(U::from_usize, (dim,), den)
                    &&& call_ensures(U::over, (num, den), e)
                    &&& call_ensures(U::power, (theta, e), p)
                    &&& call_ensures(U::over, (Single::one(), p), freq)
                }
            &&& call_ensures(U::over, (Single::two_pi(), freq), wavelen)
            &&& low.less(wavelen) ==> call_ensures(U::over, (freq, scaling.factor), r@[i])
            &&& high.at_most(wavelen) && wavelen.at_most(low) ==> scaling.smoothed_gives::<U>(
                wavelen,
                freq,
                r@[i],
            )
            &&& !low.less(wavelen) && !(high.at_most(wavelen) && wavelen.at_most(low)) ==> r@[i]
                == freq
        }),
{
    let dim = choose|dim: usize|
        #![trigger rope_llama3::rotary_dim_gives::<U>(head_dim, partial_rotary_factor, dim)]
        rope_llama3::rotary_dim_gives::<U>(head_dim, partial_rotary_factor, dim)
            && scaling.frequencies_give::<U>(dim, theta, r@);
    let (size, product) = choose|d: Single, product: Single|
        #![trigger Single::multiplies::<U>(d, partial_rotary_factor, product)]
        {
            &&& Single::converts::<U>(head_dim, d)
            &&& Single::multiplies::<U>(d, partial_rotary_factor, product)
            &&& Single::cuts::<U>(product, dim)
        };
    assert(call_ensures(U::times, (size, partial_rotary_factor), product));
    let (base, low, high) = choose|base: Seq<Single>, low: Single, high: Single|
        #![trigger rope_llama3::even_index_gives::<U>(dim, theta, base), scaling.bounds_give::<U>(low, high)]
        {
            &&& rope_llama3::even_index_gives::<U>(dim, theta, base)
            &&& scaling.bounds_give::<U>(low, high)
            &&& r@.len() == base.len()
            &&& forall|i: int|
                0 <= i < base.len() ==> scaling.scaled_gives::<U>(
                    base[i],
                    low,
                    high,
                    #[trigger] r@[i],
                )
        };
    let freq = base[i];
    let y = r@[i];
    assert(rope_llama3::frequency_gives::<U>(theta, dim, i, freq));
    let (num, den, e, p) = choose|num: Single, den: Single, e: Single, p: Single|
        #![trigger Single::divides::<U>(num, den, e), Single::raises::<U>(theta, e, p)]
        {
            &&& Single::converts::<U>((2 * i) as usize, num)
            &&& Single::converts::<U>(dim, den)
            &&& Single::divides::<U>(num, den, e)
            &&& Single::raises::<U>(theta, e, p)
            &&& Single::divides::<U>(Single::one(), p, freq)
        };
    assert(call_ensures(U::over, (num, den), e) && call_ensures(U::power, (theta, e), p));
    assert(scaling.scaled_gives::<U>(freq, low, high, y));
    let wavelen = rope_llama3::law_llama3_scales_by_band::<U>(scaling, freq, low, high, y);
    (dim, low, high, freq, wavelen)
}

/// A head's steps work on the elements from `from` on alone, where the head starts there or later.
proof fn lemma_head_steps_on_a_slice<U: FloatUnit>(
    cache: &RopeCosSinCache,
    before: Seq<Half>,
    base: int,
    pos: int,
    n: nat,
    after: Seq<Half>,
    from: int,
)
    requires
        0 <= from <= base,
        from <= before.len(),
        n > 0 ==> base + 2 * n <= before.len(),
        cache.head_steps::<U>(before, base, pos, n, after),
    ensures
        after.len() == before.len(),
        after.take(from) == before.take(from),
        cache.head_steps::<U>(before.skip(from), base - from, pos, n, after.skip(from)),
    decreases n,
{
    if n > 0 {
        let mid = choose|mid: Seq<Half>|
            cache.head_steps::<U>(before, base, pos, (n - 1) as nat, mid)
                && #[trigger] cache.pair_step::<U>(mid, base + 2 * (n - 1), pos, n - 1, after);
        lemma_head_steps_on_a_slice::<U>(cache, before, base, pos, (n - 1) as nat, mid, from);
        let at = base + 2 * (n - 1);
        let i = n - 1;
        let (y0, y1) = choose|y0: Half, y1: Half|
            #![trigger rope_llama3::turns::<U>(cache.cos@[pos * cache.half_dim + i], cache.sin@[pos * cache.half_dim + i], mid[at], mid[at + 1], y0, y1)]
            {
                &&& rope_llama3::turns::<U>(
                    cache.cos@[pos * cache.half_dim + i],
                    cache.sin@[pos * cache.half_dim + i],
                    mid[at],
                    mid[at + 1],
                    y0,
                    y1,
                )
                &&& after == mid.update(at, y0).update(at + 1, y1)
            };
        let part = mid.skip(from);
        let there = base - from + 2 * (n - 1);
        assert(part[there] == mid[at] && part[there + 1] == mid[at + 1]);
        assert(after.skip(from) =~= part.update(there, y0).update(there + 1, y1));
        assert(rope_llama3::turns::<U>(
            cache.cos@[pos * cache.half_dim + i],
            cache.sin@[pos * cache.half_dim + i],
            part[there],
            part[there + 1],
            y0,
            y1,
        ));
        assert(cache.pair_step::<U>(part, there, pos, n - 1, after.skip(from)));
        assert(after.take(from) =~= mid.take(from));
    } else {
        assert(after.skip(from) == before.skip(from));
    }
}

/// A row's steps work on the elements from its start on alone.
proof fn lemma_row_steps_on_a_slice<U: FloatUnit>(
    cache: &RopeCosSinCache,
    before: Seq<Half>,
    base: int,
    head_dim: int,
    pos: int,
    n: nat,
    after: Seq<Half>,
)
    requires
        0 <= base <= before.len(),
        0 <= head_dim,
        forall|h: int|
            #![trigger h * head_dim]
            0 <= h < n && cache.half_dim > 0 ==> base + h * head_dim + 2 * cache.half_dim
                <= before.len(),
        cache.row_steps::<U>(before, base, head_dim, pos, n, after),
    ensures
        after.len() == before.len(),
        after.take(base) == before.take(base),
        cache.row_steps::<U>(before.skip(base), 0, head_dim, pos, n, after.skip(base)),
    decreases n,
{
    if n > 0 {
        let mid = choose|mid: Seq<Half>|
            cache.row_steps::<U>(before, base, head_dim, pos, (n - 1) as nat, mid)
                && #[trigger] cache.head_steps::<U>(
                mid,
                base + (n - 1) * head_dim,
                pos,
                cache.half_dim as nat,
                after,
            );
        lemma_row_steps_on_a_slice::<U>(
            cache,
            before,
            base,
            head_dim,
            pos,
            (n - 1) as nat,
            mid,
        );
        let h = n - 1;
        assert(0 <= h * head_dim) by (nonlinear_arith)
            requires
                0 <= h,
                0 <= head_dim,
        ;
        lemma_head_steps_on_a_slice::<U>(
            cache,
            mid,
            base + h * head_dim,
            pos,
            cache.half_dim as nat,
            after,
            base,
        );
        assert(cache.head_steps::<U>(
            mid.skip(base),
            0 + (n - 1) * head_dim,
            pos,
            cache.half_dim as nat,
            after.skip(base),
        ));
    }
}

/// Tokens are rotated one after the other, also where heads overlap: rotating one token more is
/// rotating those before it, and then rotating what starts at its row as a tensor of one token.
pub proof fn law_tokens_are_rotated_in_turn<U: FloatUnit>(
    cache: &RopeCosSinCache,
    before: Seq<Half>,
    positions: Seq<u32>,
    num_heads: nat,
    head_dim: nat,
    n: nat,
    after: Seq<Half>,
) -> (mid: Seq<Half>)
    requires
        n < positions.len(),
        n * (num_heads * head_dim) <= before.len(),
        cache.in_bounds(before.len(), positions, n + 1, num_heads, head_dim),
        cache.steps::<U>(before, positions, num_heads, head_dim as int, n + 1, after),
    ensures
        ({
            let start = (n * (num_heads * head_dim)) as int;
            &&& cache.steps::<U>(before, positions, num_heads, head_dim as int, n, mid)
            &&& mid.len() == before.len()
            &&& after.len() == before.len()
            &&& after.take(start) == mid.take(start)
            &&& cache.steps::<U>(
                mid.skip(start),
                seq![positions[n as int]],
                num_heads,
                head_dim as int,
                1,
                after.skip(start),
            )
        }),
{
    let dim = head_dim as int;
    let heads = num_heads as int;
    let pos = positions[n as int] as int;
    let start = n * (heads * dim);
    let last = (n + 1) as nat;
    let mid = choose|mid: Seq<Half>|
        cache.steps::<U>(before, positions, num_heads, dim, (last - 1) as nat, mid)
            && #[trigger] cache.token_step::<U>(
            mid,
            (last - 1) * (num_heads * dim),
            dim,
            positions[last - 1] as int,
            num_heads,
            after,
        );
    lemma_steps_keep_length::<U>(cache, before, positions, num_heads, head_dim, n, last, mid);
    assert(0 <= start) by (nonlinear_arith)
        requires
            start == n * (heads * dim),
            0 <= heads,
            0 <= dim,
    ;
    let one = seq![positions[n as int]];
    if pos < cache.max_seq_len {
        assert forall|h: int|
            #![trigger h * dim]
            0 <= h < heads && cache.half_dim > 0 implies start + h * dim + 2 * cache.half_dim
            <= mid.len() by {
            assert(rope_llama3::pair_at(n as int, h, cache.half_dim - 1, heads, dim) + 1
                < before.len());
        }
        lemma_row_steps_on_a_slice::<U>(cache, mid, start, dim, pos, num_heads, after);
    } else {
        assert(after == mid);
    }
    assert(0 * (num_heads * dim) == 0) by (nonlinear_arith);
    assert(cache.steps::<U>(mid.skip(start), one, num_heads, dim, 0, mid.skip(start)));
    assert(cache.token_step::<U>(
        mid.skip(start),
        (1 - 1) * (num_heads * dim),
        dim,
        one[1 - 1] as int,
        num_heads,
        after.skip(start),
    ));
    mid
}

/// The steps of tokens keep the number of elements.
proof fn lemma_steps_keep_length<U: FloatUnit>(
    cache: &RopeCosSinCache,
    before: Seq<Half>,
    positions: Seq<u32>,
    num_heads: nat,
    head_dim: nat,
    n: nat,
    tokens: nat,
    after: Seq<Half>,
)
    requires
        n <= tokens <= positions.len(),
        cache.in_bounds(before.len(), positions, tokens, num_heads, head_dim),
        cache.steps::<U>(before, positions, num_heads, head_dim as int, n, after),
    ensures
        after.len() == before.len(),
    decreases n,
{
    if n > 0 {
        let dim = head_dim as int;
        let heads = num_heads as int;
        let mid = choose|mid: Seq<Half>|
            cache.steps::<U>(before, positions, num_heads, dim, (n - 1) as nat, mid)
                && #[trigger] cache.token_step::<U>(
                mid,
                (n - 1) * (num_heads * dim),
                dim,
                positions[n - 1] as int,
                num_heads,
                after,
            );
        lemma_steps_keep_length::<U>(
            cache,
            before,
            positions,
            num_heads,
            head_dim,
            (n - 1) as nat,
            tokens,
            mid,
        );
        if positions[n - 1] < cache.max_seq_len {
            let base = (n - 1) * (heads * dim);
            assert(0 <= base) by (nonlinear_arith)
                requires
                    base == (n - 1) * (heads * dim),
                    n > 0,
                    0 <= heads,
                    0 <= dim,
            ;
            assert forall|h: int|
                #![trigger h * dim]
                0 <= h < heads && cache.half_dim > 0 implies base + h * dim + 2 * cache.half_dim
                <= mid.len() by {
                assert(rope_llama3::pair_at(n - 1, h, cache.half_dim - 1, heads, dim) + 1
                    < before.len());
            }
            lemma_row_steps_keep_length::<U>(
                cache,
                mid,
                base,
                dim,
                positions[n - 1] as int,
                num_heads,
                after,
            );
        }
    }
}

proof fn lemma_row_steps_keep_length<U: FloatUnit>(
    cache: &RopeCosSinCache,
    before: Seq<Half>,
    base: int,
    head_dim: int,
    pos: int,
    n: nat,
    after: Seq<Half>,
)
    requires
        0 <= base,
        0 <= head_dim,
        forall|h: int|
            #![trigger h * head_dim]
            0 <= h < n && cache.half_dim > 0 ==> base + h * head_dim + 2 * cache.half_dim
                <= before.len(),
        cache.row_steps::<U>(before, base, head_dim, pos, n, after),
    ensures
        after.len() == before.len(),
    decreases n,
{
    if n > 0 {
        let mid = choose|mid: Seq<Half>|
            cache.row_steps::<U>(before, base, head_dim, pos, (n - 1) as nat, mid)
                && #[trigger] cache.head_steps::<U>(
                mid,
                base + (n - 1) * head_dim,
                pos,
                cache.half_dim as nat,
                after,
            );
        lemma_row_steps_keep_length::<U>(
            cache,
            before,
            base,
            head_dim,
            pos,
            (n - 1) as nat,
            mid,
        );
        let h = n - 1;
        assert(0 <= h * head_dim) by (nonlinear_arith)
            requires
                0 <= h,
                0 <= head_dim,
        ;
        lemma_head_steps_on_a_slice::<U>(
            cache,
            mid,
            base + h * head_dim,
            pos,
            cache.half_dim as nat,
            after,
            0,
        );
    }
}

/// Heads of a token are rotated one after the other, also where they overlap: rotating one head more
/// is rotating those before it, and then rotating what starts at the head as a tensor of one head.
/// The size of a head does not matter to a single one.
pub proof fn law_heads_are_rotated_in_turn<U: FloatUnit>(
    cache: &RopeCosSinCache,
    before: Seq<Half>,
    pos: u32,
    num_heads: nat,
    head_dim: nat,
    other_dim: nat,
    after: Seq<Half>,
) -> (mid: Seq<Half>)
    requires
        pos < cache.max_seq_len,
        num_heads * head_dim <= before.len(),
        cache.in_bounds(before.len(), seq![pos], 1, num_heads + 1, head_dim),
        cache.steps::<U>(before, seq![pos], num_heads + 1, head_dim as int, 1, after),
    ensures
        ({
            let start = (num_heads * head_dim) as int;
            &&& cache.steps::<U>(before, seq![pos], num_heads, head_dim as int, 1, mid)
            &&& mid.len() == before.len()
            &&& after.len() == before.len()
            &&& after.take(start) == mid.take(start)
            &&& cache.steps::<U>(
                mid.skip(start),
                seq![pos],
                1,
                other_dim as int,
                1,
                after.skip(start),
            )
        }),
{
    let dim = head_dim as int;
    let heads = num_heads as int;
    let one = seq![pos];
    let many = (num_heads + 1) as nat;
    let start = heads * dim;
    assert(0 <= start) by (nonlinear_arith)
        requires
            start == heads * dim,
            0 <= heads,
            0 <= dim,
    ;
    let first = choose|mid: Seq<Half>|
        cache.steps::<U>(before, one, many, dim, (1 - 1) as nat, mid)
            && #[trigger] cache.token_step::<U>(
            mid,
            (1 - 1) * (many * dim),
            dim,
            one[1 - 1] as int,
            many,
            after,
        );
    assert(first == before);
    assert(0 * (many * dim) == 0) by (nonlinear_arith);
    assert(0 * (num_heads * dim) == 0) by (nonlinear_arith);
    assert(cache.row_steps::<U>(before, 0, dim, pos as int, many, after));
    let mid = choose|mid: Seq<Half>|
        cache.row_steps::<U>(before, 0, dim, pos as int, (many - 1) as nat, mid)
            && #[trigger] cache.head_steps::<U>(
            mid,
            0 + (many - 1) * dim,
            pos as int,
            cache.half_dim as nat,
            after,
        );
    assert forall|h: int|
        #![trigger h * dim]
        0 <= h < many && cache.half_dim > 0 implies 0 + h * dim + 2 * cache.half_dim
        <= before.len() by {
        assert(rope_llama3::pair_at(0, h, cache.half_dim - 1, many as int, dim) + 1
            < before.len());
    }
    lemma_row_steps_keep_length::<U>(cache, before, 0, dim, pos as int, num_heads, mid);
    assert(heads * dim + 2 * cache.half_dim <= before.len() || cache.half_dim == 0);
    lemma_head_steps_on_a_slice::<U>(
        cache,
        mid,
        start,
        pos as int,
        cache.half_dim as nat,
        after,
        start,
    );
    assert(cache.steps::<U>(before, one, num_heads, dim, 0, before));
    assert(cache.token_step::<U>(
        before,
        (1 - 1) * (num_heads * dim),
        dim,
        one[1 - 1] as int,
        num_heads,
        mid,
    ));
    let part = mid.skip(start);
    let other = other_dim as int;
    assert(0 * (1nat * other) == 0) by (nonlinear_arith);
    assert(0 * other == 0) by (nonlinear_arith);
    assert(cache.row_steps::<U>(part, 0, other, pos as int, 0, part));
    assert(cache.head_steps::<U>(
        part,
        0 + (1 - 1) * other,
        pos as int,
        cache.half_dim as nat,
        after.skip(start),
    ));
    assert(cache.row_steps::<U>(part, 0, other, pos as int, 1, after.skip(start)));
    assert(cache.steps::<U>(part, one, 1, other, 0, part));
    assert(cache.token_step::<U>(
        part,
        (1 - 1) * (1nat * other),
        other,
        one[1 - 1] as int,
        1,
        after.skip(start),
    ));
    mid
}

} // verus!
