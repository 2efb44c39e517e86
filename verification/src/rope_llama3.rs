//! Rotary position embedding: inverse frequencies, with or without the Llama 3 scaling, and the
//! cosine and sine tables built from them.
//!
//! The Llama 3 inverse frequencies match Hugging Face's
//! `modeling_rope_utils._compute_llama3_parameters` for `rope_type == "llama3"` and positive
//! parameters, up to rounding. The rotary size is `head_dim * partial_rotary_factor` cut to a whole
//! number, and there is one frequency for every even index below it: an odd size `dim` has
//! `(dim + 1) / 2` of them, the last index without a partner. A wavelength beyond the low-frequency
//! bound has its frequency divided by the factor, one from the high-frequency bound to the
//! low-frequency bound has it smoothed, and any other keeps it. Where the bounds are the other way
//! round, nothing is smoothed.
use crate::float::{FloatUnit, Half, Single};
use vstd::prelude::*;

verus! {

/// `1 / theta^(2i / dim)` may come out as `r`.
pub open spec fn frequency_gives<U: FloatUnit>(
    theta: Single,
    dim: usize,
    i: int,
    r: Single,
) -> bool {
    exists|num: Single, den: Single, e: Single, p: Single|
        #![trigger Single::divides::<U>(num, den, e), Single::raises::<U>(theta, e, p)]
        {
            &&& Single::converts::<U>((2 * i) as usize, num)
            &&& Single::converts::<U>(dim, den)
            &&& Single::divides::<U>(num, den, e)
            &&& Single::raises::<U>(theta, e, p)
            &&& Single::divides::<U>(Single::one(), p, r)
        }
}

/// `dim / 2` inverse frequencies, one for each pair of components, may come out as `r`.
pub open spec fn standard_gives<U: FloatUnit>(dim: usize, theta: Single, r: Seq<Single>) -> bool {
    &&& r.len() == dim as nat / 2
    &&& forall|i: int| 0 <= i < r.len() ==> frequency_gives::<U>(theta, dim, i, #[trigger] r[i])
}

/// The number of even indices below `dim`.
pub open spec fn even_indices(dim: usize) -> nat {
    (dim as nat + 1) / 2
}

/// The inverse frequencies of all even indices below `dim` may come out as `r`.
pub open spec fn even_index_gives<U: FloatUnit>(dim: usize, theta: Single, r: Seq<Single>) -> bool {
    &&& r.len() == even_indices(dim)
    &&& forall|i: int| 0 <= i < r.len() ==> frequency_gives::<U>(theta, dim, i, #[trigger] r[i])
}

/// One inverse frequency.
fn frequency<U: FloatUnit>(theta: Single, dim: usize, i: usize) -> (r: Single)
    requires
        2 * i <= usize::MAX,
    ensures
        frequency_gives::<U>(theta, dim, i as int, r),
{
    let num = U::from_usize(2 * i);
    let den = U::from_usize(dim);
    let e = U::over(num, den);
    let p = U::power(theta, e);
    let r = U::over(Single::one(), p);
    assert(Single::divides::<U>(num, den, e) && Single::raises::<U>(theta, e, p));
    r
}

/// Standard inverse frequencies: `1 / theta^(2i / head_dim)` for each pair of components.
pub fn compute_inv_freq_standard<U: FloatUnit>(head_dim: usize, rope_theta: Single) -> (r: Vec<
    Single,
>)
    ensures
        standard_gives::<U>(head_dim, rope_theta, r@),
{
    frequencies::<U>(rope_theta, head_dim, head_dim / 2)
}

/// The first `n` inverse frequencies over `dim` components.
fn frequencies<U: FloatUnit>(theta: Single, dim: usize, n: usize) -> (r: Vec<Single>)
    requires
        2 * n <= dim + 1,
    ensures
        r@.len() == n,
        forall|i: int| 0 <= i < n ==> frequency_gives::<U>(theta, dim, i, #[trigger] r@[i]),
{
    let mut out: Vec<Single> = Vec::with_capacity(n);
    for i in 0..n
        invariant
            2 * n <= dim + 1,
            out@.len() == i,
            forall|j: int| 0 <= j < i ==> frequency_gives::<U>(theta, dim, j, #[trigger] out@[j]),
    {
        out.push(frequency::<U>(theta, dim, i));
    }
    out
}

/// The parameters of the Llama 3 frequency scaling.
pub struct Llama3Scaling {
    pub factor: Single,
    pub low_freq_factor: Single,
    pub high_freq_factor: Single,
    pub original_max_position_embeddings: Single,
}

impl Llama3Scaling {
    /// The wavelengths that bound the smoothed band may come out as `low` and `high`.
    pub open spec fn bounds_give<U: FloatUnit>(self, low: Single, high: Single) -> bool {
        &&& Single::divides::<U>(self.original_max_position_embeddings, self.low_freq_factor, low)
        &&& Single::divides::<U>(self.original_max_position_embeddings, self.high_freq_factor, high)
    }

    /// How far into the smoothed band the wavelength lies, from 0 at the low frequencies to 1 at
    /// the high ones, may come out as `r`.
    pub open spec fn smooth_factor_gives<U: FloatUnit>(self, wavelen: Single, r: Single) -> bool {
        exists|turns: Single, above: Single, width: Single|
            #![trigger Single::subtracts::<U>(turns, self.low_freq_factor, above), Single::divides::<U>(above, width, r)]
            {
                &&& Single::divides::<U>(self.original_max_position_embeddings, wavelen, turns)
                &&& Single::subtracts::<U>(turns, self.low_freq_factor, above)
                &&& Single::subtracts::<U>(self.high_freq_factor, self.low_freq_factor, width)
                &&& Single::divides::<U>(above, width, r)
            }
    }

    /// Where the wavelength of `freq` lies in the band, the quotient of the context length and the
    /// wavelength is positive and stays clear of the ends of the number range.
    pub open spec fn smooths_in_mid_range<U: FloatUnit>(
        self,
        freq: Single,
        low: Single,
        high: Single,
    ) -> bool {
        forall|wavelen: Single, turns: Single|
            Single::divides::<U>(Single::two_pi(), freq, wavelen) && Self::in_band(
                wavelen,
                low,
                high,
            ) && #[trigger] Single::divides::<U>(
                self.original_max_position_embeddings,
                wavelen,
                turns,
            ) ==> turns.mid_range() && !turns.negative()
    }

    /// `self` is `other` with the context length and both frequency factors doubled.
    pub open spec fn is_doubled(self, other: Llama3Scaling) -> bool {
        &&& self.factor == other.factor
        &&& self.original_max_position_embeddings.is_twice(other.original_max_position_embeddings)
        &&& self.low_freq_factor.is_twice(other.low_freq_factor)
        &&& self.high_freq_factor.is_twice(other.high_freq_factor)
    }

    /// `(1 - s) * freq / factor + s * freq` may come out as `r`.
    pub open spec fn blend_gives<U: FloatUnit>(self, s: Single, freq: Single, r: Single) -> bool {
        exists|rest: Single, product: Single, scaled: Single, kept: Single|
            #![trigger Single::multiplies::<U>(rest, freq, product), Single::adds::<U>(scaled, kept, r)]
            {
                &&& Single::subtracts::<U>(Single::one(), s, rest)
                &&& Single::multiplies::<U>(rest, freq, product)
                &&& Single::divides::<U>(product, self.factor, scaled)
                &&& Single::multiplies::<U>(s, freq, kept)
                &&& Single::adds::<U>(scaled, kept, r)
            }
    }

    /// The frequency inside the smoothed band may come out as `r`.
    pub open spec fn smoothed_gives<U: FloatUnit>(
        self,
        wavelen: Single,
        freq: Single,
        r: Single,
    ) -> bool {
        exists|s: Single|
            self.smooth_factor_gives::<U>(wavelen, s) && #[trigger] self.blend_gives::<U>(
                s,
                freq,
                r,
            )
    }

    /// The wavelength lies in the smoothed band, from the high-frequency bound to the low-frequency
    /// one, both included. Where the bounds are the other way round the band is empty.
    pub open spec fn in_band(wavelen: Single, low: Single, high: Single) -> bool {
        high.at_most(wavelen) && wavelen.at_most(low)
    }

    /// A frequency whose wavelength is beyond the low bound is divided by the factor.
    pub open spec fn cut_gives<U: FloatUnit>(
        self,
        freq: Single,
        wavelen: Single,
        low: Single,
        r: Single,
    ) -> bool {
        if low.less(wavelen) {
            Single::divides::<U>(freq, self.factor, r)
        } else {
            r == freq
        }
    }

    /// The scaling of `freq`, of this wavelength, may come out as `r`.
    pub open spec fn scaled_wave_gives<U: FloatUnit>(
        self,
        freq: Single,
        wavelen: Single,
        low: Single,
        high: Single,
        r: Single,
    ) -> bool {
        exists|cut: Single|
            #[trigger] self.cut_gives::<U>(freq, wavelen, low, cut) && if Self::in_band(
                wavelen,
                low,
                high,
            ) {
                self.smoothed_gives::<U>(wavelen, cut, r)
            } else {
                r == cut
            }
    }

    /// The scaling of the inverse frequency `freq` may come out as `r`.
    pub open spec fn scaled_gives<U: FloatUnit>(
        self,
        freq: Single,
        low: Single,
        high: Single,
        r: Single,
    ) -> bool {
        exists|wavelen: Single|
            Single::divides::<U>(Single::two_pi(), freq, wavelen)
                && #[trigger] self.scaled_wave_gives::<U>(freq, wavelen, low, high, r)
    }

    /// Inverse frequencies over `dim` components, scaled, may come out as `r`.
    pub open spec fn frequencies_give<U: FloatUnit>(
        self,
        dim: usize,
        theta: Single,
        r: Seq<Single>,
    ) -> bool {
        exists|base: Seq<Single>, low: Single, high: Single|
            #![trigger even_index_gives::<U>(dim, theta, base), self.bounds_give::<U>(low, high)]
            {
                &&& even_index_gives::<U>(dim, theta, base)
                &&& self.bounds_give::<U>(low, high)
                &&& r.len() == base.len()
                &&& forall|i: int|
                    0 <= i < base.len() ==> self.scaled_gives::<U>(
                        base[i],
                        low,
                        high,
                        #[trigger] r[i],
                    )
            }
    }

    /// The scaling of one inverse frequency.
    fn scaled<U: FloatUnit>(&self, freq: Single, low: Single, high: Single) -> (r: Single)
        ensures
            self.scaled_gives::<U>(freq, low, high, r),
    {
        let wavelen = U::over(Single::two_pi(), freq);
        let cut = if low.lt(wavelen) {
            U::over(freq, self.factor)
        } else {
            freq
        };
        assert(self.cut_gives::<U>(freq, wavelen, low, cut));
        let is_medium: bool = high.le(wavelen) && wavelen.le(low);
        let r = if is_medium {
            self.smoothed::<U>(wavelen, cut)
        } else {
            cut
        };
        assert(self.scaled_wave_gives::<U>(freq, wavelen, low, high, r));
        r
    }

    /// The frequency inside the smoothed band.
    fn smoothed<U: FloatUnit>(&self, wavelen: Single, freq: Single) -> (r: Single)
        ensures
            self.smoothed_gives::<U>(wavelen, freq, r),
    {
        let turns = U::over(self.original_max_position_embeddings, wavelen);
        let above = U::minus(turns, self.low_freq_factor);
        let width = U::minus(self.high_freq_factor, self.low_freq_factor);
        let s = U::over(above, width);
        assert(Single::subtracts::<U>(turns, self.low_freq_factor, above) && Single::divides::<U>(
            above,
            width,
            s,
        ));
        assert(self.smooth_factor_gives::<U>(wavelen, s));
        let rest = U::minus(Single::one(), s);
        let product = U::times(rest, freq);
        let scaled = U::over(product, self.factor);
        let kept = U::times(s, freq);
        let r = U::plus(scaled, kept);
        assert(Single::multiplies::<U>(rest, freq, product) && Single::adds::<U>(scaled, kept, r));
        assert(self.blend_gives::<U>(s, freq, r));
        r
    }
}

/// The rotary size, `head_dim * partial_rotary_factor` cut to a whole number, may come out as
/// `dim`.
pub open spec fn rotary_dim_gives<U: FloatUnit>(
    head_dim: usize,
    partial_rotary_factor: Single,
    dim: usize,
) -> bool {
    exists|d: Single, product: Single|
        #![trigger Single::multiplies::<U>(d, partial_rotary_factor, product)]
        {
            &&& Single::converts::<U>(head_dim, d)
            &&& Single::multiplies::<U>(d, partial_rotary_factor, product)
            &&& Single::cuts::<U>(product, dim)
        }
}

/// What [`compute_inv_freq_llama3`] may return.
pub open spec fn llama3_gives<U: FloatUnit>(
    head_dim: usize,
    partial_rotary_factor: Single,
    theta: Single,
    scaling: Llama3Scaling,
    r: Seq<Single>,
) -> bool {
    exists|dim: usize|
        #![trigger rotary_dim_gives::<U>(head_dim, partial_rotary_factor, dim)]
        rotary_dim_gives::<U>(head_dim, partial_rotary_factor, dim) && scaling.frequencies_give::<
            U,
        >(dim, theta, r)
}

/// Inverse frequencies with the Llama 3 scaling, one for every even index below the rotary size.
pub fn compute_inv_freq_llama3<U: FloatUnit>(
    head_dim: usize,
    partial_rotary_factor: Single,
    rope_theta: Single,
    factor: Single,
    low_freq_factor: Single,
    high_freq_factor: Single,
    original_max_position_embeddings: Single,
) -> (r: Vec<Single>)
    ensures
        llama3_gives::<U>(
            head_dim,
            partial_rotary_factor,
            rope_theta,
            (Llama3Scaling {
                factor,
                low_freq_factor,
                high_freq_factor,
                original_max_position_embeddings,
            }),
            r@,
        ),
{
    let scaling = Llama3Scaling {
        factor,
        low_freq_factor,
        high_freq_factor,
        original_max_position_embeddings,
    };
    let d = U::from_usize(head_dim);
    let product = U::times(d, partial_rotary_factor);
    let dim: usize = U::to_usize(product);
    assert(Single::multiplies::<U>(d, partial_rotary_factor, product));
    assert(rotary_dim_gives::<U>(head_dim, partial_rotary_factor, dim));

    let base = frequencies::<U>(rope_theta, dim, dim / 2 + dim % 2);
    assert(even_index_gives::<U>(dim, rope_theta, base@));
    let low = U::over(original_max_position_embeddings, low_freq_factor);
    let high = U::over(original_max_position_embeddings, high_freq_factor);
    assert(scaling.bounds_give::<U>(low, high));
    let mut out: Vec<Single> = Vec::with_capacity(base.len());
    for i in 0..base.len()
        invariant
            out@.len() == i,
            forall|j: int|
                0 <= j < i ==> scaling.scaled_gives::<U>(base@[j], low, high, #[trigger] out@[j]),
    {
        out.push(scaling.scaled::<U>(base[i], low, high));
    }
    assert(scaling.frequencies_give::<U>(dim, rope_theta, out@));
    out
}

/// Cosine and sine tables for the positions `0..max_seq_len`, one entry per pair of components.
pub struct RopeCosSinCache {
    pub cos: Vec<Single>,
    pub sin: Vec<Single>,
    pub half_dim: usize,
    pub max_seq_len: usize,
}

/// The cosine and sine of the angle at `pos`, turning by `freq` per position, may come out as `c`
/// and `s`.
pub open spec fn angle_gives<U: FloatUnit>(pos: usize, freq: Single, c: Single, s: Single) -> bool {
    exists|p: Single, theta: Single|
        #![trigger Single::multiplies::<U>(p, freq, theta)]
        {
            &&& Single::converts::<U>(pos, p)
            &&& Single::multiplies::<U>(p, freq, theta)
            &&& Single::has_cosine::<U>(theta, c)
            &&& Single::has_sine::<U>(theta, s)
        }
}

/// Turning the pair `(x0, x1)` by the angle of cosine `c` and sine `s` may give `(y0, y1)`.
pub open spec fn turns<U: FloatUnit>(
    c: Single,
    s: Single,
    x0: Half,
    x1: Half,
    y0: Half,
    y1: Half,
) -> bool {
    exists|a: Single, b: Single|
        #![trigger Single::widens::<U>(x0, a), Single::widens::<U>(x1, b)]
        {
            &&& Single::widens::<U>(x0, a)
            &&& Single::widens::<U>(x1, b)
            &&& difference_gives::<U>(a, c, b, s, y0)
            &&& sum_gives::<U>(a, s, b, c, y1)
        }
}

/// `a * c - b * s`, rounded, may come out as `r`.
pub open spec fn difference_gives<U: FloatUnit>(
    a: Single,
    c: Single,
    b: Single,
    s: Single,
    r: Half,
) -> bool {
    exists|p: Single, q: Single, d: Single|
        #![trigger Single::subtracts::<U>(p, q, d)]
        {
            &&& Single::multiplies::<U>(a, c, p)
            &&& Single::multiplies::<U>(b, s, q)
            &&& Single::subtracts::<U>(p, q, d)
            &&& Single::narrows::<U>(d, r)
        }
}

/// `a * s + b * c`, rounded, may come out as `r`.
pub open spec fn sum_gives<U: FloatUnit>(
    a: Single,
    s: Single,
    b: Single,
    c: Single,
    r: Half,
) -> bool {
    exists|p: Single, q: Single, d: Single|
        #![trigger Single::adds::<U>(p, q, d)]
        {
            &&& Single::multiplies::<U>(a, s, p)
            &&& Single::multiplies::<U>(b, c, q)
            &&& Single::adds::<U>(p, q, d)
            &&& Single::narrows::<U>(d, r)
        }
}

/// The place of the first component of pair `i` of head `h` of token `t`.
pub open spec fn pair_at(t: int, h: int, i: int, num_heads: int, head_dim: int) -> int {
    t * (num_heads * head_dim) + h * head_dim + 2 * i
}

/// The place of component `c` of head `h` of token `t`.
pub open spec fn component_at(t: int, h: int, c: int, num_heads: int, head_dim: int) -> int {
    t * (num_heads * head_dim) + h * head_dim + c
}

/// The number of tokens that have both a row and a position.
pub open spec fn rotated_rows(positions: Seq<u32>, num_tokens: nat) -> nat {
    if num_tokens < positions.len() {
        num_tokens
    } else {
        positions.len()
    }
}

impl RopeCosSinCache {
    /// Both tables hold one entry per position and pair.
    pub open spec fn wf(&self) -> bool {
        &&& self.cos@.len() == self.max_seq_len * self.half_dim
        &&& self.sin@.len() == self.max_seq_len * self.half_dim
    }

    /// Both tables reach over the entries of position `pos`.
    pub open spec fn reaches(&self, pos: int) -> bool {
        &&& (pos + 1) * self.half_dim <= self.cos@.len()
        &&& (pos + 1) * self.half_dim <= self.sin@.len()
    }

    /// Both tables reach over every position that the rotation reads.
    pub open spec fn covers(&self, positions: Seq<u32>, num_tokens: nat, num_heads: nat) -> bool {
        forall|t: int|
            num_heads > 0 && 0 <= t < rotated_rows(positions, num_tokens) && positions[t]
                < self.max_seq_len ==> self.reaches(#[trigger] positions[t] as int)
    }

    /// Complete tables reach over every position, whatever is rotated.
    pub proof fn law_complete_tables_cover(
        &self,
        positions: Seq<u32>,
        num_tokens: nat,
        num_heads: nat,
    )
        requires
            self.wf(),
        ensures
            self.covers(positions, num_tokens, num_heads),
    {
        assert forall|t: int|
            num_heads > 0 && 0 <= t < rotated_rows(positions, num_tokens) && positions[t]
                < self.max_seq_len implies self.reaches(#[trigger] positions[t] as int) by {
            let pos = positions[t] as int;
            let half = self.half_dim as int;
            let len = self.max_seq_len as int;
            assert((pos + 1) * half <= len * half) by (nonlinear_arith)
                requires
                    pos + 1 <= len,
                    0 <= half,
            ;
        }
    }

    /// The tables may be those of these inverse frequencies.
    pub open spec fn built_from<U: FloatUnit>(&self, inv_freq: Seq<Single>) -> bool {
        forall|pos: int, i: int|
            #![trigger self.cos@[pos * self.half_dim + i]]
            #![trigger self.sin@[pos * self.half_dim + i]]
            0 <= pos < self.max_seq_len && 0 <= i < self.half_dim ==> angle_gives::<U>(
                pos as usize,
                inv_freq[i],
                self.cos@[pos * self.half_dim + i],
                self.sin@[pos * self.half_dim + i],
            )
    }

    /// Build the tables from `head_dim / 2` inverse frequencies.
    pub fn from_inv_freq<U: FloatUnit>(
        inv_freq: &[Single],
        max_seq_len: usize,
        head_dim: usize,
    ) -> (r: Self)
        requires
            inv_freq@.len() == head_dim as nat / 2,
            max_seq_len * (head_dim as nat / 2) <= usize::MAX,
        ensures
            r.wf(),
            r.half_dim == head_dim as nat / 2,
            r.max_seq_len == max_seq_len,
            r.built_from::<U>(inv_freq@),
    {
        let half_dim: usize = head_dim / 2;
        let mut cos: Vec<Single> = Vec::with_capacity(max_seq_len * half_dim);
        let mut sin: Vec<Single> = Vec::with_capacity(max_seq_len * half_dim);
        assert(0 * half_dim == 0) by (nonlinear_arith);
        for pos in 0..max_seq_len
            invariant
                inv_freq@.len() == half_dim,
                cos@.len() == pos * half_dim,
                sin@.len() == pos * half_dim,
                forall|p: int, i: int|
                    #![trigger cos@[p * half_dim + i]]
                    #![trigger sin@[p * half_dim + i]]
                    0 <= p < pos && 0 <= i < half_dim ==> angle_gives::<U>(
                        p as usize,
                        inv_freq@[i],
                        cos@[p * half_dim + i],
                        sin@[p * half_dim + i],
                    ),
        {
            for i in 0..half_dim
                invariant
                    inv_freq@.len() == half_dim,
                    cos@.len() == pos * half_dim + i,
                    sin@.len() == pos * half_dim + i,
                    forall|p: int, j: int|
                        #![trigger cos@[p * half_dim + j]]
                        #![trigger sin@[p * half_dim + j]]
                        0 <= p && 0 <= j < half_dim && (p < pos || (p == pos && j < i))
                            ==> angle_gives::<U>(
                            p as usize,
                            inv_freq@[j],
                            cos@[p * half_dim + j],
                            sin@[p * half_dim + j],
                        ),
            {
                let p = U::from_usize(pos);
                let theta = U::times(p, inv_freq[i]);
                assert(Single::multiplies::<U>(p, inv_freq@[i as int], theta));
                let c = U::cosine(theta);
                let s = U::sine(theta);
                assert(angle_gives::<U>(pos, inv_freq@[i as int], c, s));
                let ghost before_cos = cos@;
                let ghost before_sin = sin@;
                cos.push(c);
                sin.push(s);
                assert forall|p: int, j: int|
                    #![trigger cos@[p * half_dim + j]]
                    #![trigger sin@[p * half_dim + j]]
                    0 <= p && 0 <= j < half_dim && (p < pos || (p == pos && j < i + 1))
                implies angle_gives::<U>(
                    p as usize,
                    inv_freq@[j],
                    cos@[p * half_dim + j],
                    sin@[p * half_dim + j],
                ) by {
                    if !(p == pos && j == i) {
                        lemma_earlier_entry(half_dim as int, pos as int, i as int, p, j);
                        assert(cos@[p * half_dim + j] == before_cos[p * half_dim + j]);
                        assert(sin@[p * half_dim + j] == before_sin[p * half_dim + j]);
                    }
                }
            }
            assert(pos * half_dim + half_dim == (pos + 1) * half_dim) by (nonlinear_arith);
        }
        RopeCosSinCache { cos, sin, half_dim, max_seq_len }
    }
}

/// Table entries come in the order of their positions, then of their pairs.
proof fn lemma_earlier_entry(half_dim: int, pos: int, i: int, p: int, j: int)
    requires
        0 <= p,
        0 <= j < half_dim,
        0 <= i,
        p < pos || (p == pos && j < i),
    ensures
        0 <= p * half_dim + j < pos * half_dim + i,
{
    assert(0 <= p * half_dim) by (nonlinear_arith)
        requires
            0 <= p,
            0 <= half_dim,
    ;
    if p < pos {
        assert(p * half_dim + half_dim <= pos * half_dim) by (nonlinear_arith)
            requires
                p < pos,
                0 <= half_dim,
        ;
    }
}

impl RopeCosSinCache {
    /// Turning the pair at `at` by the angle of position `pos` and pair `i` may turn `before` into
    /// `after`.
    pub open spec fn pair_step<U: FloatUnit>(
        &self,
        before: Seq<Half>,
        at: int,
        pos: int,
        i: int,
        after: Seq<Half>,
    ) -> bool {
        exists|y0: Half, y1: Half|
            #![trigger turns::<U>(self.cos@[pos * self.half_dim + i], self.sin@[pos * self.half_dim + i], before[at], before[at + 1], y0, y1)]
            {
                &&& turns::<U>(
                    self.cos@[pos * self.half_dim + i],
                    self.sin@[pos * self.half_dim + i],
                    before[at],
                    before[at + 1],
                    y0,
                    y1,
                )
                &&& after == before.update(at, y0).update(at + 1, y1)
            }
    }

    /// Turning the first `n` pairs from `base` on, one after the other.
    pub open spec fn head_steps<U: FloatUnit>(
        &self,
        before: Seq<Half>,
        base: int,
        pos: int,
        n: nat,
        after: Seq<Half>,
    ) -> bool
        decreases n,
    {
        if n == 0 {
            after == before
        } else {
            exists|mid: Seq<Half>|
                self.head_steps::<U>(before, base, pos, (n - 1) as nat, mid)
                    && #[trigger] self.pair_step::<U>(mid, base + 2 * (n - 1), pos, n - 1, after)
        }
    }

    /// Turning the first `n` heads from `base` on, one after the other.
    pub open spec fn row_steps<U: FloatUnit>(
        &self,
        before: Seq<Half>,
        base: int,
        head_dim: int,
        pos: int,
        n: nat,
        after: Seq<Half>,
    ) -> bool
        decreases n,
    {
        if n == 0 {
            after == before
        } else {
            exists|mid: Seq<Half>|
                self.row_steps::<U>(before, base, head_dim, pos, (n - 1) as nat, mid)
                    && #[trigger] self.head_steps::<U>(
                    mid,
                    base + (n - 1) * head_dim,
                    pos,
                    self.half_dim as nat,
                    after,
                )
        }
    }

    /// The step of one token: none where its position lies beyond the tables.
    pub open spec fn token_step<U: FloatUnit>(
        &self,
        before: Seq<Half>,
        base: int,
        head_dim: int,
        pos: int,
        num_heads: nat,
        after: Seq<Half>,
    ) -> bool {
        if pos >= self.max_seq_len {
            after == before
        } else {
            self.row_steps::<U>(before, base, head_dim, pos, num_heads, after)
        }
    }

    /// The steps of the first `n` tokens, one after the other.
    pub open spec fn steps<U: FloatUnit>(
        &self,
        before: Seq<Half>,
        positions: Seq<u32>,
        num_heads: nat,
        head_dim: int,
        n: nat,
        after: Seq<Half>,
    ) -> bool
        decreases n,
    {
        if n == 0 {
            after == before
        } else {
            exists|mid: Seq<Half>|
                self.steps::<U>(before, positions, num_heads, head_dim, (n - 1) as nat, mid)
                    && #[trigger] self.token_step::<U>(
                    mid,
                    (n - 1) * (num_heads * head_dim),
                    head_dim,
                    positions[n - 1] as int,
                    num_heads,
                    after,
                )
        }
    }

    /// Every pair that the rotation touches lies inside `len` elements.
    pub open spec fn in_bounds(
        &self,
        len: nat,
        positions: Seq<u32>,
        num_tokens: nat,
        num_heads: nat,
        head_dim: nat,
    ) -> bool {
        forall|t: int, h: int, i: int|
            #![trigger pair_at(t, h, i, num_heads as int, head_dim as int)]
            0 <= t < rotated_rows(positions, num_tokens) && positions[t] < self.max_seq_len && 0
                <= h < num_heads && 0 <= i < self.half_dim ==> pair_at(
                t,
                h,
                i,
                num_heads as int,
                head_dim as int,
            ) + 1 < len
    }

    /// Turn every pair of every head of each token by the angle of the token's position.
    ///
    /// `data` holds rows of `num_heads * head_dim` elements. A token without a position, or with
    /// one beyond the tables, is left as it is.
    pub fn apply<U: FloatUnit>(
        &self,
        data: &mut [Half],
        positions: &[u32],
        num_tokens: usize,
        num_heads: usize,
        head_dim: usize,
    )
        requires
            self.covers(positions@, num_tokens as nat, num_heads as nat),
            num_heads * head_dim <= usize::MAX,
            self.in_bounds(
                old(data)@.len(),
                positions@,
                num_tokens as nat,
                num_heads as nat,
                head_dim as nat,
            ),
        ensures
            final(data)@.len() == old(data)@.len(),
            self.steps::<U>(
                old(data)@,
                positions@,
                num_heads as nat,
                head_dim as int,
                rotated_rows(positions@, num_tokens as nat),
                final(data)@,
            ),
            2 * self.half_dim <= head_dim ==> self.turns_each::<U>(
                old(data)@,
                positions@,
                num_heads as nat,
                head_dim as nat,
                rotated_rows(positions@, num_tokens as nat),
                final(data)@,
            ),
    {
        let row_stride: usize = num_heads * head_dim;
        let rows: usize = if num_tokens < positions.len() {
            num_tokens
        } else {
            positions.len()
        };
        for t in 0..rows
            invariant
                self.covers(positions@, num_tokens as nat, num_heads as nat),
                rows == rotated_rows(positions@, num_tokens as nat),
                rows <= positions@.len(),
                row_stride == num_heads * head_dim,
                data@.len() == old(data)@.len(),
                self.in_bounds(
                    data@.len(),
                    positions@,
                    num_tokens as nat,
                    num_heads as nat,
                    head_dim as nat,
                ),
                self.steps::<U>(
                    old(data)@,
                    positions@,
                    num_heads as nat,
                    head_dim as int,
                    t as nat,
                    data@,
                ),
        {
            let ghost before = data@;
            let pos: usize = positions[t] as usize;
            if pos < self.max_seq_len {
                assert(num_heads > 0 ==> self.reaches(positions@[t as int] as int));
                self.apply_row::<U>(data, t, pos, num_heads, head_dim);
            }
            assert(self.token_step::<U>(
                before,
                ((t + 1) - 1) * (num_heads as nat * head_dim as int),
                head_dim as int,
                positions@[(t + 1) - 1] as int,
                num_heads as nat,
                data@,
            ));
        }
        proof {
            if 2 * self.half_dim <= head_dim {
                self.law_steps_turn_each::<U>(
                    old(data)@,
                    positions@,
                    num_tokens as nat,
                    num_heads as nat,
                    head_dim as nat,
                    rows as nat,
                    data@,
                );
            }
        }
    }

    /// Whether every pair that the rotation touches lies inside `len` elements.
    pub fn fits(
        &self,
        len: usize,
        positions: &[u32],
        num_tokens: usize,
        num_heads: usize,
        head_dim: usize,
    ) -> (r: bool)
        ensures
            r == self.in_bounds(
                len as nat,
                positions@,
                num_tokens as nat,
                num_heads as nat,
                head_dim as nat,
            ),
    {
        if num_heads == 0 || self.half_dim == 0 {
            return true;
        }
        let rows: usize = if num_tokens < positions.len() {
            num_tokens
        } else {
            positions.len()
        };
        let ghost heads = num_heads as int;
        let ghost dim = head_dim as int;
        for t in 0..rows
            invariant
                num_heads > 0,
                self.half_dim > 0,
                rows == rotated_rows(positions@, num_tokens as nat),
                rows <= positions@.len(),
                heads == num_heads,
                dim == head_dim,
                forall|u: int, h: int, i: int|
                    #![trigger pair_at(u, h, i, heads, dim)]
                    0 <= u < t && positions@[u] < self.max_seq_len && 0 <= h < heads && 0 <= i
                        < self.half_dim ==> pair_at(u, h, i, heads, dim) + 1 < len,
        {
            if (positions[t] as usize) < self.max_seq_len {
                let ghost last = pair_at(t as int, heads - 1, self.half_dim - 1, heads, dim);
                if !row_ends_before(t, num_heads, head_dim, self.half_dim, len) {
                    assert(last + 1 >= len);
                    return false;
                }
                assert forall|h: int, i: int|
                    #![trigger pair_at(t as int, h, i, heads, dim)]
                    0 <= h < heads && 0 <= i < self.half_dim implies pair_at(
                    t as int,
                    h,
                    i,
                    heads,
                    dim,
                ) + 1 < len by {
                    assert(h * dim <= (heads - 1) * dim) by (nonlinear_arith)
                        requires
                            h <= heads - 1,
                            0 <= dim,
                    ;
                }
            }
        }
        true
    }

    /// Turn every pair of one row.
    fn apply_row<U: FloatUnit>(
        &self,
        data: &mut [Half],
        t: usize,
        pos: usize,
        num_heads: usize,
        head_dim: usize,
    )
        requires
            num_heads > 0 ==> self.reaches(pos as int),
            num_heads * head_dim <= usize::MAX,
            forall|h: int, i: int|
                #![trigger pair_at(t as int, h, i, num_heads as int, head_dim as int)]
                0 <= h < num_heads && 0 <= i < self.half_dim ==> pair_at(
                    t as int,
                    h,
                    i,
                    num_heads as int,
                    head_dim as int,
                ) + 1 < old(data)@.len(),
        ensures
            final(data)@.len() == old(data)@.len(),
            self.row_steps::<U>(
                old(data)@,
                t * (num_heads * head_dim),
                head_dim as int,
                pos as int,
                num_heads as nat,
                final(data)@,
            ),
    {
        for h in 0..num_heads
            invariant
                num_heads > 0 ==> self.reaches(pos as int),
                num_heads * head_dim <= usize::MAX,
                data@.len() == old(data)@.len(),
                forall|h: int, i: int|
                    #![trigger pair_at(t as int, h, i, num_heads as int, head_dim as int)]
                    0 <= h < num_heads && 0 <= i < self.half_dim ==> pair_at(
                        t as int,
                        h,
                        i,
                        num_heads as int,
                        head_dim as int,
                    ) + 1 < data@.len(),
                self.row_steps::<U>(
                    old(data)@,
                    t * (num_heads * head_dim),
                    head_dim as int,
                    pos as int,
                    h as nat,
                    data@,
                ),
        {
            let ghost start = data@;
            let ghost base = t * (num_heads * head_dim) + h * head_dim;
            for i in 0..self.half_dim
                invariant
                    self.reaches(pos as int),
                    num_heads * head_dim <= usize::MAX,
                    h < num_heads,
                    base == t * (num_heads * head_dim) + h * head_dim,
                    data@.len() == old(data)@.len(),
                    forall|h: int, i: int|
                        #![trigger pair_at(t as int, h, i, num_heads as int, head_dim as int)]
                        0 <= h < num_heads && 0 <= i < self.half_dim ==> pair_at(
                            t as int,
                            h,
                            i,
                            num_heads as int,
                            head_dim as int,
                        ) + 1 < data@.len(),
                    self.head_steps::<U>(start, base, pos as int, i as nat, data@),
            {
                proof {
                    lemma_pair_fits(t as int, h as int, num_heads as int, head_dim as int);
                    assert(pair_at(t as int, h as int, i as int, num_heads as int, head_dim as int)
                        + 1 < data@.len());
                    lemma_entry_fits(
                        self.half_dim as int,
                        pos + 1,
                        pos as int,
                        i as int,
                    );
                }
                let ghost before = data@;
                assert(self.cos.len() == self.cos@.len() && data.len() == data@.len());
                let at: usize = t * (num_heads * head_dim) + h * head_dim + 2 * i;
                let entry: usize = pos * self.half_dim + i;
                let c = self.cos[entry];
                let s = self.sin[entry];
                let (y0, y1) = turn::<U>(c, s, data[at], data[at + 1]);
                data[at] = y0;
                data[at + 1] = y1;
                assert(self.pair_step::<U>(
                    before,
                    base + 2 * ((i + 1) - 1),
                    pos as int,
                    (i + 1) - 1,
                    data@,
                ));
            }
            assert(self.head_steps::<U>(
                start,
                t * (num_heads * head_dim) + ((h + 1) - 1) * head_dim as int,
                pos as int,
                self.half_dim as nat,
                data@,
            ));
        }
    }
}

/// The parts of a pair's place are not negative.
proof fn lemma_pair_fits(t: int, h: int, num_heads: int, head_dim: int)
    requires
        0 <= t,
        0 <= h,
        0 <= num_heads,
        0 <= head_dim,
    ensures
        0 <= num_heads * head_dim,
        0 <= t * (num_heads * head_dim),
        0 <= h * head_dim,
{
    assert(0 <= num_heads * head_dim) by (nonlinear_arith)
        requires
            0 <= num_heads,
            0 <= head_dim,
    ;
    let stride = num_heads * head_dim;
    assert(0 <= t * stride) by (nonlinear_arith)
        requires
            0 <= t,
            0 <= stride,
    ;
    assert(0 <= h * head_dim) by (nonlinear_arith)
        requires
            0 <= h,
            0 <= head_dim,
    ;
}

/// The entries of a position lie before those of any later one.
proof fn lemma_entry_fits(half_dim: int, later: int, pos: int, i: int)
    requires
        0 <= pos < later,
        0 <= i < half_dim,
    ensures
        0 <= pos * half_dim,
        pos * half_dim + i < later * half_dim,
{
    assert(0 <= pos * half_dim && pos * half_dim + half_dim <= later * half_dim)
        by (nonlinear_arith)
        requires
            0 <= pos < later,
            0 <= half_dim,
    ;
}

/// Turn one pair.
fn turn<U: FloatUnit>(c: Single, s: Single, x0: Half, x1: Half) -> (r: (Half, Half))
    ensures
        turns::<U>(c, s, x0, x1, r.0, r.1),
{
    let a = U::widen(x0);
    let b = U::widen(x1);
    let ac = U::times(a, c);
    let bs = U::times(b, s);
    let difference = U::minus(ac, bs);
    let y0 = U::narrow(difference);
    assert(Single::subtracts::<U>(ac, bs, difference));
    assert(difference_gives::<U>(a, c, b, s, y0));
    let as_ = U::times(a, s);
    let bc = U::times(b, c);
    let sum = U::plus(as_, bc);
    let y1 = U::narrow(sum);
    assert(Single::adds::<U>(as_, bc, sum));
    assert(sum_gives::<U>(a, s, b, c, y1));
    assert(Single::widens::<U>(x0, a) && Single::widens::<U>(x1, b));
    (y0, y1)
}

impl RopeCosSinCache {
    /// Where heads do not overlap, what the rotation of the first `n` tokens does to each element:
    /// every pair of a token with a position in the tables is turned by that position's angle,
    /// and everything else keeps its value.
    pub open spec fn turns_each<U: FloatUnit>(
        &self,
        before: Seq<Half>,
        positions: Seq<u32>,
        num_heads: nat,
        head_dim: nat,
        n: nat,
        after: Seq<Half>,
    ) -> bool {
        let heads = num_heads as int;
        let dim = head_dim as int;
        &&& after.len() == before.len()
        &&& forall|t: int, h: int, i: int|
            #![trigger pair_at(t, h, i, heads, dim)]
            0 <= t < n && positions[t] < self.max_seq_len && 0 <= h < heads && 0 <= i
                < self.half_dim ==> turns::<U>(
                self.cos@[positions[t] * self.half_dim + i],
                self.sin@[positions[t] * self.half_dim + i],
                before[pair_at(t, h, i, heads, dim)],
                before[pair_at(t, h, i, heads, dim) + 1],
                after[pair_at(t, h, i, heads, dim)],
                after[pair_at(t, h, i, heads, dim) + 1],
            )
        &&& forall|t: int, h: int, c: int|
            #![trigger component_at(t, h, c, heads, dim)]
            0 <= t < n && 0 <= h < heads && 0 <= c < dim && (positions[t] >= self.max_seq_len || c
                >= 2 * self.half_dim) && component_at(t, h, c, heads, dim) < before.len()
                ==> after[component_at(t, h, c, heads, dim)] == before[component_at(
                t,
                h,
                c,
                heads,
                dim,
            )]
        &&& forall|idx: int|
            n * (heads * dim) <= idx < before.len() ==> #[trigger] after[idx] == before[idx]
    }

    /// A head's steps turn its pairs, each by its own angle, and touch nothing else.
    proof fn lemma_head_steps<U: FloatUnit>(
        &self,
        before: Seq<Half>,
        base: int,
        pos: int,
        n: nat,
        after: Seq<Half>,
    )
        requires
            0 <= base,
            n > 0 ==> base + 2 * n <= before.len(),
            self.head_steps::<U>(before, base, pos, n, after),
        ensures
            after.len() == before.len(),
            forall|i: int|
                #![trigger after[base + 2 * i]]
                0 <= i < n ==> turns::<U>(
                    self.cos@[pos * self.half_dim + i],
                    self.sin@[pos * self.half_dim + i],
                    before[base + 2 * i],
                    before[base + 2 * i + 1],
                    after[base + 2 * i],
                    after[base + 2 * i + 1],
                ),
            forall|idx: int|
                0 <= idx < before.len() && !(base <= idx < base + 2 * n) ==> #[trigger] after[idx]
                    == before[idx],
        decreases n,
    {
        if n > 0 {
            let mid = choose|mid: Seq<Half>|
                self.head_steps::<U>(before, base, pos, (n - 1) as nat, mid)
                    && #[trigger] self.pair_step::<U>(mid, base + 2 * (n - 1), pos, n - 1, after);
            self.lemma_head_steps::<U>(before, base, pos, (n - 1) as nat, mid);
            assert forall|i: int|
                #![trigger after[base + 2 * i]]
                0 <= i < n implies turns::<U>(
                self.cos@[pos * self.half_dim + i],
                self.sin@[pos * self.half_dim + i],
                before[base + 2 * i],
                before[base + 2 * i + 1],
                after[base + 2 * i],
                after[base + 2 * i + 1],
            ) by {
                if i == n - 1 {
                    assert(mid[base + 2 * i] == before[base + 2 * i]);
                    assert(mid[base + 2 * i + 1] == before[base + 2 * i + 1]);
                } else {
                    assert(after[base + 2 * i] == mid[base + 2 * i]);
                    assert(after[base + 2 * i + 1] == mid[base + 2 * i + 1]);
                }
            }
        }
    }

    /// A row's steps turn the pairs of its heads and touch nothing else.
    proof fn lemma_row_steps<U: FloatUnit>(
        &self,
        before: Seq<Half>,
        base: int,
        head_dim: int,
        pos: int,
        n: nat,
        after: Seq<Half>,
    )
        requires
            0 <= base,
            2 * self.half_dim <= head_dim,
            forall|h: int|
                #![trigger h * head_dim]
                0 <= h < n && self.half_dim > 0 ==> base + h * head_dim + 2 * self.half_dim
                    <= before.len(),
            self.row_steps::<U>(before, base, head_dim, pos, n, after),
        ensures
            after.len() == before.len(),
            forall|h: int, i: int|
                #![trigger after[base + h * head_dim + 2 * i]]
                0 <= h < n && 0 <= i < self.half_dim ==> turns::<U>(
                    self.cos@[pos * self.half_dim + i],
                    self.sin@[pos * self.half_dim + i],
                    before[base + h * head_dim + 2 * i],
                    before[base + h * head_dim + 2 * i + 1],
                    after[base + h * head_dim + 2 * i],
                    after[base + h * head_dim + 2 * i + 1],
                ),
            forall|h: int, c: int|
                #![trigger after[base + h * head_dim + c]]
                0 <= h < n && 2 * self.half_dim <= c < head_dim && base + h * head_dim + c
                    < before.len() ==> after[base + h * head_dim + c] == before[base + h * head_dim
                    + c],
            forall|idx: int|
                0 <= idx < before.len() && !(base <= idx < base + n * head_dim)
                    ==> #[trigger] after[idx] == before[idx],
        decreases n,
    {
        if n > 0 {
            let last = n - 1;
            let at = base + last * head_dim;
            let mid = choose|mid: Seq<Half>|
                self.row_steps::<U>(before, base, head_dim, pos, (n - 1) as nat, mid)
                    && #[trigger] self.head_steps::<U>(
                    mid,
                    base + (n - 1) * head_dim,
                    pos,
                    self.half_dim as nat,
                    after,
                );
            self.lemma_row_steps::<U>(before, base, head_dim, pos, (n - 1) as nat, mid);
            assert(0 <= last * head_dim && last * head_dim + head_dim == n * head_dim)
                by (nonlinear_arith)
                requires
                    last == n - 1,
                    0 <= last,
                    0 <= head_dim,
            ;
            self.lemma_head_steps::<U>(mid, at, pos, self.half_dim as nat, after);
            assert forall|h: int, i: int|
                #![trigger after[base + h * head_dim + 2 * i]]
                0 <= h < n && 0 <= i < self.half_dim implies turns::<U>(
                self.cos@[pos * self.half_dim + i],
                self.sin@[pos * self.half_dim + i],
                before[base + h * head_dim + 2 * i],
                before[base + h * head_dim + 2 * i + 1],
                after[base + h * head_dim + 2 * i],
                after[base + h * head_dim + 2 * i + 1],
            ) by {
                let p = base + h * head_dim + 2 * i;
                lemma_earlier_run(head_dim, last, h);
                if h == last {
                    assert(after[at + 2 * i] == after[p]);
                    assert(mid[p] == before[p] && mid[p + 1] == before[p + 1]);
                } else {
                    assert(after[p] == mid[p] && after[p + 1] == mid[p + 1]);
                }
            }
            assert forall|h: int, c: int|
                #![trigger after[base + h * head_dim + c]]
                0 <= h < n && 2 * self.half_dim <= c < head_dim && base + h * head_dim + c
                    < before.len() implies after[base + h * head_dim + c] == before[base + h
                * head_dim + c] by {
                let p = base + h * head_dim + c;
                lemma_earlier_run(head_dim, last, h);
                assert(after[p] == mid[p]);
                assert(mid[p] == before[p]);
            }
        }
    }

    /// Where heads do not overlap, the steps of the first `n` tokens turn each pair by the angle of
    /// its token's position, mix neither tokens nor heads, and leave alone what has no position in
    /// the tables.
    pub proof fn law_steps_turn_each<U: FloatUnit>(
        &self,
        before: Seq<Half>,
        positions: Seq<u32>,
        num_tokens: nat,
        num_heads: nat,
        head_dim: nat,
        n: nat,
        after: Seq<Half>,
    )
        requires
            2 * self.half_dim <= head_dim,
            n <= rotated_rows(positions, num_tokens),
            self.in_bounds(before.len(), positions, num_tokens, num_heads, head_dim),
            self.steps::<U>(before, positions, num_heads, head_dim as int, n, after),
        ensures
            self.turns_each::<U>(before, positions, num_heads, head_dim, n, after),
        decreases n,
    {
        let heads = num_heads as int;
        let dim = head_dim as int;
        let stride = heads * dim;
        assert(0 * stride == 0) by (nonlinear_arith);
        if n > 0 {
            let last = n - 1;
            let base = last * stride;
            let pos = positions[last] as int;
            let mid = choose|mid: Seq<Half>|
                self.steps::<U>(before, positions, num_heads, dim, (n - 1) as nat, mid)
                    && #[trigger] self.token_step::<U>(
                    mid,
                    (n - 1) * (num_heads * dim),
                    dim,
                    positions[n - 1] as int,
                    num_heads,
                    after,
                );
            self.law_steps_turn_each::<U>(
                before,
                positions,
                num_tokens,
                num_heads,
                head_dim,
                (n - 1) as nat,
                mid,
            );
            lemma_pair_fits(last, 0, heads, dim);
            assert(base + stride == n * stride) by (nonlinear_arith)
                requires
                    base == last * stride,
                    last == n - 1,
            ;
            if pos < self.max_seq_len {
                assert forall|h: int|
                    #![trigger h * dim]
                    0 <= h < num_heads && self.half_dim > 0 implies base + h * dim + 2
                    * self.half_dim <= mid.len() by {
                    assert(pair_at(last, h, self.half_dim - 1, heads, dim) + 1 < before.len());
                }
                self.lemma_row_steps::<U>(mid, base, dim, pos, num_heads, after);
            }
            assert forall|t: int, h: int, i: int|
                #![trigger pair_at(t, h, i, heads, dim)]
                0 <= t < n && positions[t] < self.max_seq_len && 0 <= h < heads && 0 <= i
                    < self.half_dim implies turns::<U>(
                self.cos@[positions[t] * self.half_dim + i],
                self.sin@[positions[t] * self.half_dim + i],
                before[pair_at(t, h, i, heads, dim)],
                before[pair_at(t, h, i, heads, dim) + 1],
                after[pair_at(t, h, i, heads, dim)],
                after[pair_at(t, h, i, heads, dim) + 1],
            ) by {
                let p = pair_at(t, h, i, heads, dim);
                lemma_pair_fits(t, h, heads, dim);
                lemma_earlier_run(dim, heads - 1, h);
                lemma_earlier_run(stride, last, t);
                assert(p + 1 < before.len());
                if t == last {
                    assert(mid[p] == before[p] && mid[p + 1] == before[p + 1]);
                    assert(after[base + h * dim + 2 * i] == after[p]);
                } else {
                    assert(after[p] == mid[p] && after[p + 1] == mid[p + 1]);
                }
            }
            assert forall|t: int, h: int, c: int|
                #![trigger component_at(t, h, c, heads, dim)]
                0 <= t < n && 0 <= h < heads && 0 <= c < dim && (positions[t] >= self.max_seq_len
                    || c >= 2 * self.half_dim) && component_at(t, h, c, heads, dim)
                    < before.len() implies after[component_at(t, h, c, heads, dim)]
                == before[component_at(t, h, c, heads, dim)] by {
                let p = component_at(t, h, c, heads, dim);
                lemma_pair_fits(t, h, heads, dim);
                lemma_earlier_run(dim, heads - 1, h);
                lemma_earlier_run(stride, last, t);
                if t == last {
                    assert(mid[p] == before[p]);
                    if pos < self.max_seq_len {
                        assert(after[base + h * dim + c] == mid[base + h * dim + c]);
                    }
                } else {
                    assert(after[p] == mid[p]);
                }
            }
            assert forall|idx: int| n * stride <= idx < before.len() implies #[trigger] after[idx]
                == before[idx] by {
                assert(mid[idx] == before[idx]);
            }
        }
    }
}

/// Runs of `len` elements, one after the other: an earlier run ends before a later one starts.
proof fn lemma_earlier_run(len: int, last: int, i: int)
    requires
        0 <= len,
        0 <= i <= last,
    ensures
        0 <= i * len,
        i < last ==> i * len + len <= last * len,
        i * len + len <= (last + 1) * len,
{
    assert(0 <= i * len) by (nonlinear_arith)
        requires
            0 <= len,
            0 <= i,
    ;
    assert(i * len + len <= (last + 1) * len) by (nonlinear_arith)
        requires
            0 <= len,
            i <= last,
    ;
    if i < last {
        assert(i * len + len <= last * len) by (nonlinear_arith)
            requires
                0 <= len,
                i < last,
        ;
    }
}

/// Whether the last pair of row `t` ends before `len`.
fn row_ends_before(t: usize, num_heads: usize, head_dim: usize, half_dim: usize, len: usize) -> (r:
    bool)
    requires
        num_heads > 0,
        half_dim > 0,
    ensures
        r == (pair_at(t as int, num_heads - 1, half_dim - 1, num_heads as int, head_dim as int) + 1
            < len),
{
    proof {
        lemma_pair_fits(t as int, num_heads - 1, num_heads as int, head_dim as int);
        lemma_row_start_grows(t as int, num_heads as int, head_dim as int);
    }
    if t > 0 && num_heads.checked_mul(head_dim).is_none() {
        return false;
    }
    let row_start: Option<usize> = if t == 0 {
        Some(0)
    } else {
        t.checked_mul(num_heads * head_dim)
    };
    match (row_start, (num_heads - 1).checked_mul(head_dim)) {
        (Some(row), Some(head)) => match row.checked_add(head) {
            Some(base) => base < len && (half_dim - 1) < (len - base) / 2,
            None => false,
        },
        _ => false,
    }
}

/// A row after the first starts no earlier than one row's length.
proof fn lemma_row_start_grows(t: int, num_heads: int, head_dim: int)
    requires
        0 <= t,
        0 <= num_heads,
        0 <= head_dim,
    ensures
        t == 0 ==> t * (num_heads * head_dim) == 0,
        t > 0 ==> t * (num_heads * head_dim) >= num_heads * head_dim,
{
    let stride = num_heads * head_dim;
    assert(0 <= stride) by (nonlinear_arith)
        requires
            0 <= num_heads,
            0 <= head_dim,
            stride == num_heads * head_dim,
    ;
    assert(t == 0 ==> t * stride == 0) by (nonlinear_arith);
    assert(t > 0 ==> t * stride >= stride) by (nonlinear_arith)
        requires
            0 <= stride,
    ;
}

/// The Llama 3 scaling by bands: a frequency whose wavelength is beyond the low-frequency bound is
/// divided by the factor, one whose wavelength lies from the high-frequency bound to the
/// low-frequency bound is smoothed, and any other is kept. Where the high-frequency bound is the
/// longer, nothing is smoothed.
pub proof fn law_llama3_scales_by_band<U: FloatUnit>(
    scaling: Llama3Scaling,
    freq: Single,
    low: Single,
    high: Single,
    r: Single,
) -> (wavelen: Single)
    requires
        scaling.scaled_gives::<U>(freq, low, high, r),
    ensures
        Single::divides::<U>(Single::two_pi(), freq, wavelen),
        low.less(wavelen) ==> Single::divides::<U>(freq, scaling.factor, r),
        high.at_most(wavelen) && wavelen.at_most(low) ==> scaling.smoothed_gives::<U>(
            wavelen,
            freq,
            r,
        ),
        !low.less(wavelen) && !(high.at_most(wavelen) && wavelen.at_most(low)) ==> r == freq,
        low.less(high) ==> !Llama3Scaling::in_band(wavelen, low, high),
{
    let wavelen = choose|wavelen: Single|
        Single::divides::<U>(Single::two_pi(), freq, wavelen)
            && #[trigger] scaling.scaled_wave_gives::<U>(freq, wavelen, low, high, r);
    let cut = choose|cut: Single|
        #[trigger] scaling.cut_gives::<U>(freq, wavelen, low, cut)
            && if Llama3Scaling::in_band(wavelen, low, high) {
            scaling.smoothed_gives::<U>(wavelen, cut, r)
        } else {
            r == cut
        };
    assert(scaling.cut_gives::<U>(freq, wavelen, low, cut));
    wavelen
}

/// The Llama 3 scaling yields one frequency per even index below the rotary size. For an even size
/// they are as many as the standard ones, for an odd size one more.
pub proof fn law_llama3_count<U: FloatUnit>(
    head_dim: usize,
    partial_rotary_factor: Single,
    theta: Single,
    scaling: Llama3Scaling,
    r: Seq<Single>,
) -> (dim: usize)
    requires
        llama3_gives::<U>(head_dim, partial_rotary_factor, theta, scaling, r),
    ensures
        rotary_dim_gives::<U>(head_dim, partial_rotary_factor, dim),
        r.len() == (dim as nat + 1) / 2,
{
    let dim = choose|dim: usize|
        #![trigger rotary_dim_gives::<U>(head_dim, partial_rotary_factor, dim)]
        rotary_dim_gives::<U>(head_dim, partial_rotary_factor, dim) && scaling.frequencies_give::<
            U,
        >(dim, theta, r);
    dim
}

/// Tables no wider than a head fit every tensor of at least `num_tokens` rows of
/// `num_heads * head_dim` elements, whatever the positions.
pub proof fn law_layout_is_in_bounds(
    cache: &RopeCosSinCache,
    len: nat,
    positions: Seq<u32>,
    num_tokens: nat,
    num_heads: nat,
    head_dim: nat,
)
    requires
        2 * cache.half_dim <= head_dim,
        len >= num_tokens * (num_heads * head_dim),
    ensures
        cache.in_bounds(len, positions, num_tokens, num_heads, head_dim),
{
    let heads = num_heads as int;
    let dim = head_dim as int;
    assert forall|t: int, h: int, i: int|
        #![trigger pair_at(t, h, i, heads, dim)]
        0 <= t < rotated_rows(positions, num_tokens) && positions[t] < cache.max_seq_len && 0 <= h
            < num_heads && 0 <= i < cache.half_dim implies pair_at(t, h, i, heads, dim) + 1
        < len by {
        lemma_pair_fits(t, h, heads, dim);
        lemma_earlier_run(dim, heads - 1, h);
        lemma_earlier_run(heads * dim, num_tokens - 1, t);
    }
}

/// At the angle of position zero a pair keeps its values.
proof fn lemma_zero_angle_keeps_the_pair<U: FloatUnit>(
    freq: Single,
    c: Single,
    s: Single,
    x0: Half,
    x1: Half,
    y0: Half,
    y1: Half,
)
    requires
        crate::float::exact_at_zero::<U>(),
        freq.finite(),
        x0.finite(),
        x1.finite(),
        angle_gives::<U>(0, freq, c, s),
        turns::<U>(c, s, x0, x1, y0, y1),
    ensures
        y0.same_value(x0),
        y1.same_value(x1),
{
    assert(c == Single::one());
    assert(s.rank() == 0 && s.finite());
    let (a, b) = choose|a: Single, b: Single|
        #![trigger Single::widens::<U>(x0, a), Single::widens::<U>(x1, b)]
        {
            &&& Single::widens::<U>(x0, a)
            &&& Single::widens::<U>(x1, b)
            &&& difference_gives::<U>(a, c, b, s, y0)
            &&& sum_gives::<U>(a, s, b, c, y1)
        };
    let (p, q, d) = choose|p: Single, q: Single, d: Single|
        #![trigger Single::subtracts::<U>(p, q, d)]
        {
            &&& Single::multiplies::<U>(a, c, p)
            &&& Single::multiplies::<U>(b, s, q)
            &&& Single::subtracts::<U>(p, q, d)
            &&& Single::narrows::<U>(d, y0)
        };
    assert(p == a);
    assert(d == a || (a.rank() == 0 && d.rank() == 0));
    let (p, q, d) = choose|p: Single, q: Single, d: Single|
        #![trigger Single::adds::<U>(p, q, d)]
        {
            &&& Single::multiplies::<U>(a, s, p)
            &&& Single::multiplies::<U>(b, c, q)
            &&& Single::adds::<U>(p, q, d)
            &&& Single::narrows::<U>(d, y1)
        };
    assert(q == b);
    assert(d == b || (b.rank() == 0 && d.rank() == 0));
}

/// A token at position zero keeps its values: where the inverse frequencies and the pair are
/// finite, the rotation by the angle of position zero changes at most the sign of a zero.
pub proof fn law_position_zero_keeps_its_values<U: FloatUnit>(
    cache: &RopeCosSinCache,
    inv_freq: Seq<Single>,
    before: Seq<Half>,
    positions: Seq<u32>,
    num_heads: nat,
    head_dim: nat,
    n: nat,
    after: Seq<Half>,
    t: int,
    h: int,
    i: int,
)
    requires
        crate::float::exact_at_zero::<U>(),
        cache.built_from::<U>(inv_freq),
        cache.turns_each::<U>(before, positions, num_heads, head_dim, n, after),
        0 <= t < n,
        positions[t] == 0,
        cache.max_seq_len > 0,
        0 <= h < num_heads,
        0 <= i < cache.half_dim,
        inv_freq[i].finite(),
        before[pair_at(t, h, i, num_heads as int, head_dim as int)].finite(),
        before[pair_at(t, h, i, num_heads as int, head_dim as int) + 1].finite(),
    ensures
        after[pair_at(t, h, i, num_heads as int, head_dim as int)].same_value(
            before[pair_at(t, h, i, num_heads as int, head_dim as int)],
        ),
        after[pair_at(t, h, i, num_heads as int, head_dim as int) + 1].same_value(
            before[pair_at(t, h, i, num_heads as int, head_dim as int) + 1],
        ),
{
    let at = pair_at(t, h, i, num_heads as int, head_dim as int);
    let c = cache.cos@[positions[t] * cache.half_dim + i];
    let s = cache.sin@[positions[t] * cache.half_dim + i];
    assert(turns::<U>(c, s, before[at], before[at + 1], after[at], after[at + 1]));
    assert(angle_gives::<U>(0, inv_freq[i], c, s));
    lemma_zero_angle_keeps_the_pair::<U>(
        inv_freq[i],
        c,
        s,
        before[at],
        before[at + 1],
        after[at],
        after[at + 1],
    );
}

/// A rotation has one result: turning a pair by the same angle gives the same pair.
proof fn lemma_turns_has_one_result<U: FloatUnit>(
    c: Single,
    s: Single,
    x0: Half,
    x1: Half,
    y0: Half,
    y1: Half,
    z0: Half,
    z1: Half,
)
    requires
        crate::float::one_result::<U>(),
        turns::<U>(c, s, x0, x1, y0, y1),
        turns::<U>(c, s, x0, x1, z0, z1),
    ensures
        y0 == z0,
        y1 == z1,
{
}

/// All heads of a token are rotated alike: where two heads hold the same pair of components, they
/// hold the same pair after the rotation.
pub proof fn law_heads_are_rotated_alike<U: FloatUnit>(
    cache: &RopeCosSinCache,
    before: Seq<Half>,
    positions: Seq<u32>,
    num_heads: nat,
    head_dim: nat,
    n: nat,
    after: Seq<Half>,
    t: int,
    h: int,
    other: int,
    i: int,
)
    requires
        crate::float::one_result::<U>(),
        cache.turns_each::<U>(before, positions, num_heads, head_dim, n, after),
        0 <= t < n,
        positions[t] < cache.max_seq_len,
        0 <= h < num_heads,
        0 <= other < num_heads,
        0 <= i < cache.half_dim,
        before[pair_at(t, h, i, num_heads as int, head_dim as int)] == before[pair_at(
            t,
            other,
            i,
            num_heads as int,
            head_dim as int,
        )],
        before[pair_at(t, h, i, num_heads as int, head_dim as int) + 1] == before[pair_at(
            t,
            other,
            i,
            num_heads as int,
            head_dim as int,
        ) + 1],
    ensures
        after[pair_at(t, h, i, num_heads as int, head_dim as int)] == after[pair_at(
            t,
            other,
            i,
            num_heads as int,
            head_dim as int,
        )],
        after[pair_at(t, h, i, num_heads as int, head_dim as int) + 1] == after[pair_at(
            t,
            other,
            i,
            num_heads as int,
            head_dim as int,
        ) + 1],
{
    let a = pair_at(t, h, i, num_heads as int, head_dim as int);
    let b = pair_at(t, other, i, num_heads as int, head_dim as int);
    lemma_turns_has_one_result::<U>(
        cache.cos@[positions[t] * cache.half_dim + i],
        cache.sin@[positions[t] * cache.half_dim + i],
        before[a],
        before[a + 1],
        after[a],
        after[a + 1],
        after[b],
        after[b + 1],
    );
}

/// A longer table extends a shorter one of the same inverse frequencies.
pub proof fn law_a_longer_table_extends_a_shorter<U: FloatUnit>(
    short: &RopeCosSinCache,
    long: &RopeCosSinCache,
    inv_freq: Seq<Single>,
)
    requires
        crate::float::one_result::<U>(),
        short.wf(),
        long.wf(),
        short.half_dim == long.half_dim,
        short.max_seq_len <= long.max_seq_len,
        short.built_from::<U>(inv_freq),
        long.built_from::<U>(inv_freq),
    ensures
        short.cos@.len() <= long.cos@.len(),
        short.sin@.len() <= long.sin@.len(),
        short.cos@ == long.cos@.take(short.cos@.len() as int),
        short.sin@ == long.sin@.take(short.sin@.len() as int),
{
    let half = short.half_dim as int;
    let len = short.max_seq_len as int;
    assert(len * half <= long.max_seq_len * half) by (nonlinear_arith)
        requires
            len <= long.max_seq_len,
            0 <= half,
    ;
    assert forall|idx: int| 0 <= idx < len * half implies short.cos@[idx] == long.cos@[idx]
        && short.sin@[idx] == long.sin@[idx] by {
        assert(half > 0) by (nonlinear_arith)
            requires
                0 <= idx < len * half,
                0 <= half,
        ;
        let pos = idx / half;
        let i = idx % half;
        vstd::arithmetic::div_mod::lemma_fundamental_div_mod(idx, half);
        assert(0 <= pos < len && idx == pos * half + i) by (nonlinear_arith)
            requires
                idx == half * pos + i,
                0 <= i < half,
                0 <= idx < len * half,
        ;
        let c = short.cos@[pos * short.half_dim + i];
        let d = long.cos@[pos * long.half_dim + i];
        let s = short.sin@[pos * short.half_dim + i];
        let z = long.sin@[pos * long.half_dim + i];
        assert(angle_gives::<U>(pos as usize, inv_freq[i], c, s));
        assert(angle_gives::<U>(pos as usize, inv_freq[i], d, z));
    }
    assert(short.cos@ =~= long.cos@.take(short.cos@.len() as int));
    assert(short.sin@ =~= long.sin@.take(short.sin@.len() as int));
}

/// One result per index: the inverse frequency.
proof fn lemma_frequency_has_one_result<U: FloatUnit>(
    theta: Single,
    dim: usize,
    i: int,
    a: Single,
    b: Single,
)
    requires
        crate::float::one_result::<U>(),
        frequency_gives::<U>(theta, dim, i, a),
        frequency_gives::<U>(theta, dim, i, b),
    ensures
        a == b,
{
}

/// One result per frequency: its scaling.
proof fn lemma_scaled_has_one_result<U: FloatUnit>(
    scaling: Llama3Scaling,
    freq: Single,
    low: Single,
    high: Single,
    a: Single,
    b: Single,
)
    requires
        crate::float::one_result::<U>(),
        scaling.scaled_gives::<U>(freq, low, high, a),
        scaling.scaled_gives::<U>(freq, low, high, b),
    ensures
        a == b,
{
}

/// The scaled frequencies depend on the head size and the factor only through the rotary size:
/// what may come out is the same wherever the same sizes may.
pub proof fn law_llama3_reads_the_rotary_size<U: FloatUnit>(
    head_dim: usize,
    partial_rotary_factor: Single,
    other_head_dim: usize,
    other_factor: Single,
    theta: Single,
    scaling: Llama3Scaling,
    r: Seq<Single>,
)
    requires
        forall|dim: usize|
            #![trigger rotary_dim_gives::<U>(head_dim, partial_rotary_factor, dim)]
            #![trigger rotary_dim_gives::<U>(other_head_dim, other_factor, dim)]
            rotary_dim_gives::<U>(head_dim, partial_rotary_factor, dim) == rotary_dim_gives::<U>(
                other_head_dim,
                other_factor,
                dim,
            ),
    ensures
        llama3_gives::<U>(head_dim, partial_rotary_factor, theta, scaling, r) == llama3_gives::<U>(
            other_head_dim,
            other_factor,
            theta,
            scaling,
            r,
        ),
{
}

/// With one result per operands, equal rotary sizes give equal scaled frequencies.
pub proof fn law_equal_rotary_sizes_give_equal_frequencies<U: FloatUnit>(
    head_dim: usize,
    partial_rotary_factor: Single,
    other_head_dim: usize,
    other_factor: Single,
    dim: usize,
    theta: Single,
    scaling: Llama3Scaling,
    r: Seq<Single>,
    other: Seq<Single>,
)
    requires
        crate::float::one_result::<U>(),
        rotary_dim_gives::<U>(head_dim, partial_rotary_factor, dim),
        rotary_dim_gives::<U>(other_head_dim, other_factor, dim),
        llama3_gives::<U>(head_dim, partial_rotary_factor, theta, scaling, r),
        llama3_gives::<U>(other_head_dim, other_factor, theta, scaling, other),
    ensures
        r == other,
{
    assert(scaling.frequencies_give::<U>(dim, theta, r));
    assert(scaling.frequencies_give::<U>(dim, theta, other));
    let (base, low, high) = choose|base: Seq<Single>, low: Single, high: Single|
        #![trigger even_index_gives::<U>(dim, theta, base), scaling.bounds_give::<U>(low, high)]
        {
            &&& even_index_gives::<U>(dim, theta, base)
            &&& scaling.bounds_give::<U>(low, high)
            &&& r.len() == base.len()
            &&& forall|i: int|
                0 <= i < base.len() ==> scaling.scaled_gives::<U>(
                    base[i],
                    low,
                    high,
                    #[trigger] r[i],
                )
        };
    let (base2, low2, high2) = choose|base: Seq<Single>, low: Single, high: Single|
        #![trigger even_index_gives::<U>(dim, theta, base), scaling.bounds_give::<U>(low, high)]
        {
            &&& even_index_gives::<U>(dim, theta, base)
            &&& scaling.bounds_give::<U>(low, high)
            &&& other.len() == base.len()
            &&& forall|i: int|
                0 <= i < base.len() ==> scaling.scaled_gives::<U>(
                    base[i],
                    low,
                    high,
                    #[trigger] other[i],
                )
        };
    assert(low == low2 && high == high2);
    assert forall|i: int| 0 <= i < r.len() implies r[i] == other[i] by {
        lemma_frequency_has_one_result::<U>(theta, dim, i, base[i], base2[i]);
        lemma_scaled_has_one_result::<U>(scaling, base[i], low, high, r[i], other[i]);
    }
    assert(r =~= other);
}

/// Doubling the head size refines the same scale: frequency `i` over `dim` components is
/// frequency `2 * i` over twice as many.
pub proof fn law_a_doubled_head_refines_the_scale<U: FloatUnit>(
    theta: Single,
    dim: usize,
    i: int,
    coarse: Seq<Single>,
    fine: Seq<Single>,
)
    requires
        crate::float::one_result::<U>(),
        crate::float::doubling_is_exact::<U>(),
        2 * dim <= usize::MAX,
        standard_gives::<U>(dim, theta, coarse),
        standard_gives::<U>((2 * dim) as usize, theta, fine),
        0 <= i < coarse.len(),
    ensures
        2 * i < fine.len(),
        fine[2 * i] == coarse[i],
{
    let a = coarse[i];
    let b = fine[2 * i];
    let wide = (2 * dim) as usize;
    let index = (2 * i) as usize;
    assert(frequency_gives::<U>(theta, dim, i, a));
    assert(frequency_gives::<U>(theta, wide, 2 * i, b));
    let (num, den, e, p) = choose|num: Single, den: Single, e: Single, p: Single|
        #![trigger Single::divides::<U>(num, den, e), Single::raises::<U>(theta, e, p)]
        {
            &&& Single::converts::<U>((2 * i) as usize, num)
            &&& Single::converts::<U>(dim, den)
            &&& Single::divides::<U>(num, den, e)
            &&& Single::raises::<U>(theta, e, p)
            &&& Single::divides::<U>(Single::one(), p, a)
        };
    let (num2, den2, e2, p2) = choose|num: Single, den: Single, e: Single, p: Single|
        #![trigger Single::divides::<U>(num, den, e), Single::raises::<U>(theta, e, p)]
        {
            &&& Single::converts::<U>((2 * (2 * i)) as usize, num)
            &&& Single::converts::<U>(wide, den)
            &&& Single::divides::<U>(num, den, e)
            &&& Single::raises::<U>(theta, e, p)
            &&& Single::divides::<U>(Single::one(), p, b)
        };
    assert(Single::converts::<U>(index, num));
    assert(Single::converts::<U>((2 * index) as usize, num2));
    assert(num2.is_twice(num));
    assert(den2.is_twice(den));
    assert(e == e2);
}

/// How far into the band a wavelength lies does not change when everything doubles.
proof fn lemma_smooth_factor_of_doubled<U: FloatUnit>(
    scaling: Llama3Scaling,
    doubled: Llama3Scaling,
    wavelen: Single,
    s: Single,
    s2: Single,
)
    requires
        crate::float::doubling_is_exact::<U>(),
        doubled.is_doubled(scaling),
        !scaling.low_freq_factor.negative(),
        !scaling.high_freq_factor.negative(),
        forall|turns: Single| #[trigger]
            Single::divides::<U>(scaling.original_max_position_embeddings, wavelen, turns)
                ==> turns.mid_range() && !turns.negative(),
        scaling.smooth_factor_gives::<U>(wavelen, s),
        doubled.smooth_factor_gives::<U>(wavelen, s2),
    ensures
        s2 == s,
{
    let (turns, above, width) = choose|turns: Single, above: Single, width: Single|
        #![trigger Single::subtracts::<U>(turns, scaling.low_freq_factor, above), Single::divides::<U>(above, width, s)]
        {
            &&& Single::divides::<U>(scaling.original_max_position_embeddings, wavelen, turns)
            &&& Single::subtracts::<U>(turns, scaling.low_freq_factor, above)
            &&& Single::subtracts::<U>(scaling.high_freq_factor, scaling.low_freq_factor, width)
            &&& Single::divides::<U>(above, width, s)
        };
    let (turns2, above2, width2) = choose|turns: Single, above: Single, width: Single|
        #![trigger Single::subtracts::<U>(turns, doubled.low_freq_factor, above), Single::divides::<U>(above, width, s2)]
        {
            &&& Single::divides::<U>(doubled.original_max_position_embeddings, wavelen, turns)
            &&& Single::subtracts::<U>(turns, doubled.low_freq_factor, above)
            &&& Single::subtracts::<U>(doubled.high_freq_factor, doubled.low_freq_factor, width)
            &&& Single::divides::<U>(above, width, s2)
        };
    assert(turns2.is_twice(turns));
    assert(above2.is_twice(above));
    assert(width2.is_twice(width));
}

/// The band depends on ratios only: doubling the context length and both frequency factors changes
/// neither its bounds nor the scaling of a frequency. Where the frequency is smoothed, the quotient
/// of the context length and its wavelength has to stay clear of the ends of the number range.
pub proof fn law_the_band_depends_on_ratios<U: FloatUnit>(
    scaling: Llama3Scaling,
    doubled: Llama3Scaling,
    freq: Single,
    low: Single,
    high: Single,
    low2: Single,
    high2: Single,
    r: Single,
    r2: Single,
)
    requires
        crate::float::one_result::<U>(),
        crate::float::doubling_is_exact::<U>(),
        doubled.is_doubled(scaling),
        !scaling.low_freq_factor.negative(),
        !scaling.high_freq_factor.negative(),
        scaling.smooths_in_mid_range::<U>(freq, low, high),
        scaling.bounds_give::<U>(low, high),
        doubled.bounds_give::<U>(low2, high2),
        scaling.scaled_gives::<U>(freq, low, high, r),
        doubled.scaled_gives::<U>(freq, low2, high2, r2),
    ensures
        low2 == low,
        high2 == high,
        r2 == r,
{
    assert(low2 == low && high2 == high);
    let wavelen = choose|wavelen: Single|
        Single::divides::<U>(Single::two_pi(), freq, wavelen)
            && #[trigger] scaling.scaled_wave_gives::<U>(freq, wavelen, low, high, r);
    assert(doubled.scaled_wave_gives::<U>(freq, wavelen, low, high, r2));
    let cut = choose|cut: Single|
        #[trigger] scaling.cut_gives::<U>(freq, wavelen, low, cut)
            && if Llama3Scaling::in_band(wavelen, low, high) {
            scaling.smoothed_gives::<U>(wavelen, cut, r)
        } else {
            r == cut
        };
    let cut2 = choose|cut: Single|
        #[trigger] doubled.cut_gives::<U>(freq, wavelen, low, cut)
            && if Llama3Scaling::in_band(wavelen, low, high) {
            doubled.smoothed_gives::<U>(wavelen, cut, r2)
        } else {
            r2 == cut
        };
    assert(cut == cut2);
    if Llama3Scaling::in_band(wavelen, low, high) {
        let s = choose|s: Single|
            scaling.smooth_factor_gives::<U>(wavelen, s) && #[trigger] scaling.blend_gives::<U>(
                s,
                cut,
                r,
            );
        let s2 = choose|s: Single|
            doubled.smooth_factor_gives::<U>(wavelen, s) && #[trigger] doubled.blend_gives::<U>(
                s,
                cut,
                r2,
            );
        lemma_smooth_factor_of_doubled::<U>(scaling, doubled, wavelen, s, s2);
        lemma_blend_has_one_result::<U>(scaling, doubled, s, cut, r, r2);
    }
}

/// One result per operands: the blend, which reads of the scaling its factor only.
proof fn lemma_blend_has_one_result<U: FloatUnit>(
    scaling: Llama3Scaling,
    other: Llama3Scaling,
    s: Single,
    freq: Single,
    a: Single,
    b: Single,
)
    requires
        crate::float::one_result::<U>(),
        scaling.factor == other.factor,
        scaling.blend_gives::<U>(s, freq, a),
        other.blend_gives::<U>(s, freq, b),
    ensures
        a == b,
{
}

/// With one result per operands, a rotation has one result, bit for bit.
pub proof fn law_rotation_has_one_result<U: FloatUnit>(
    cache: &RopeCosSinCache,
    before: Seq<Half>,
    positions: Seq<u32>,
    num_heads: nat,
    head_dim: nat,
    n: nat,
    a: Seq<Half>,
    b: Seq<Half>,
)
    requires
        crate::float::one_result::<U>(),
        2 * cache.half_dim <= head_dim,
        cache.turns_each::<U>(before, positions, num_heads, head_dim, n, a),
        cache.turns_each::<U>(before, positions, num_heads, head_dim, n, b),
    ensures
        a == b,
{
    let heads = num_heads as int;
    let dim = head_dim as int;
    let stride = heads * dim;
    assert forall|idx: int| 0 <= idx < a.len() implies a[idx] == b[idx] by {
        if idx < n * stride {
            assert(stride > 0 && dim > 0) by (nonlinear_arith)
                requires
                    0 <= idx < n * stride,
                    stride == heads * dim,
                    0 <= heads,
                    0 <= dim,
            ;
            let t = idx / stride;
            let rest = idx % stride;
            vstd::arithmetic::div_mod::lemma_fundamental_div_mod(idx, stride);
            assert(0 <= t < n && idx == t * stride + rest) by (nonlinear_arith)
                requires
                    idx == stride * t + rest,
                    0 <= rest < stride,
                    0 <= idx < n * stride,
            ;
            let h = rest / dim;
            let c = rest % dim;
            vstd::arithmetic::div_mod::lemma_fundamental_div_mod(rest, dim);
            assert(0 <= h < heads && rest == h * dim + c) by (nonlinear_arith)
                requires
                    rest == dim * h + c,
                    0 <= c < dim,
                    0 <= rest < heads * dim,
            ;
            assert(component_at(t, h, c, heads, dim) == idx);
            if positions[t] < cache.max_seq_len && c < 2 * cache.half_dim {
                let i = c / 2;
                let at = pair_at(t, h, i, heads, dim);
                lemma_turns_has_one_result::<U>(
                    cache.cos@[positions[t] * cache.half_dim + i],
                    cache.sin@[positions[t] * cache.half_dim + i],
                    before[at],
                    before[at + 1],
                    a[at],
                    a[at + 1],
                    b[at],
                    b[at + 1],
                );
                assert(idx == at || idx == at + 1);
            }
        } else {
            assert(a[idx] == before[idx]);
            assert(b[idx] == before[idx]);
        }
    }
    assert(a =~= b);
}

/// The scaled frequencies depend on ratios only: two calls, one with the context length and both
/// frequency factors doubled, return the same bits.
pub proof fn law_doubled_parameters_give_equal_frequencies<U: FloatUnit>(
    head_dim: usize,
    partial_rotary_factor: Single,
    theta: Single,
    scaling: Llama3Scaling,
    doubled: Llama3Scaling,
    r: Seq<Single>,
    other: Seq<Single>,
)
    requires
        crate::float::one_result::<U>(),
        crate::float::doubling_is_exact::<U>(),
        doubled.is_doubled(scaling),
        !scaling.low_freq_factor.negative(),
        !scaling.high_freq_factor.negative(),
        forall|dim: usize, i: int, freq: Single, low: Single, high: Single|
            #![trigger frequency_gives::<U>(theta, dim, i, freq), scaling.bounds_give::<U>(low, high)]
            frequency_gives::<U>(theta, dim, i, freq) && scaling.bounds_give::<U>(low, high)
                && rotary_dim_gives::<U>(head_dim, partial_rotary_factor, dim) && 0 <= i
                < even_indices(dim) ==> scaling.smooths_in_mid_range::<U>(freq, low, high),
        llama3_gives::<U>(head_dim, partial_rotary_factor, theta, scaling, r),
        llama3_gives::<U>(head_dim, partial_rotary_factor, theta, doubled, other),
    ensures
        r == other,
{
    let dim = choose|dim: usize|
        #![trigger rotary_dim_gives::<U>(head_dim, partial_rotary_factor, dim)]
        rotary_dim_gives::<U>(head_dim, partial_rotary_factor, dim) && scaling.frequencies_give::<
            U,
        >(dim, theta, r);
    assert(doubled.frequencies_give::<U>(dim, theta, other));
    let (base, low, high) = choose|base: Seq<Single>, low: Single, high: Single|
        #![trigger even_index_gives::<U>(dim, theta, base), scaling.bounds_give::<U>(low, high)]
        {
            &&& even_index_gives::<U>(dim, theta, base)
            &&& scaling.bounds_give::<U>(low, high)
            &&& r.len() == base.len()
            &&& forall|i: int|
                0 <= i < base.len() ==> scaling.scaled_gives::<U>(
                    base[i],
                    low,
                    high,
                    #[trigger] r[i],
                )
        };
    let (base2, low2, high2) = choose|base: Seq<Single>, low: Single, high: Single|
        #![trigger even_index_gives::<U>(dim, theta, base), doubled.bounds_give::<U>(low, high)]
        {
            &&& even_index_gives::<U>(dim, theta, base)
            &&& doubled.bounds_give::<U>(low, high)
            &&& other.len() == base.len()
            &&& forall|i: int|
                0 <= i < base.len() ==> doubled.scaled_gives::<U>(
                    base[i],
                    low,
                    high,
                    #[trigger] other[i],
                )
        };
    assert forall|i: int| 0 <= i < r.len() implies r[i] == other[i] by {
        lemma_frequency_has_one_result::<U>(theta, dim, i, base[i], base2[i]);
        law_the_band_depends_on_ratios::<U>(
            scaling,
            doubled,
            base[i],
            low,
            high,
            low2,
            high2,
            r[i],
            other[i],
        );
    }
    assert(r =~= other);
}

/// Rows of `num_heads` heads, laid out one after the other, are `num_heads` times as many rows of
/// one head: pair `i` of head `h` of token `t` is pair `i` of row `t * num_heads + h`.
proof fn lemma_heads_are_rows(num_heads: int, dim: int, t: int, h: int, c: int)
    ensures
        pair_at(t, h, c, num_heads, dim) == pair_at(t * num_heads + h, 0, c, 1, dim),
        component_at(t, h, c, num_heads, dim) == component_at(t * num_heads + h, 0, c, 1, dim),
{
    assert(t * (num_heads * dim) + h * dim == (t * num_heads + h) * (1 * dim) + 0 * dim)
        by (nonlinear_arith);
}

/// A row of one head belongs to a token and a head.
proof fn lemma_rows_are_heads(num_heads: int, n: int, row: int)
    requires
        0 <= num_heads,
        0 <= row < n * num_heads,
    ensures
        num_heads > 0,
        0 <= row / num_heads < n,
        0 <= row % num_heads < num_heads,
        row == (row / num_heads) * num_heads + row % num_heads,
{
    assert(num_heads > 0) by (nonlinear_arith)
        requires
            0 <= num_heads,
            0 <= row < n * num_heads,
    ;
    let t = row / num_heads;
    let h = row % num_heads;
    vstd::arithmetic::div_mod::lemma_fundamental_div_mod(row, num_heads);
    assert(0 <= t < n && row == t * num_heads + h) by (nonlinear_arith)
        requires
            row == num_heads * t + h,
            0 <= h < num_heads,
            0 <= row < n * num_heads,
    ;
}

/// Each token's position, once for every head.
pub open spec fn repeat_positions(positions: Seq<u32>, num_heads: nat, n: nat) -> Seq<u32> {
    Seq::new(n * num_heads, |row: int| positions[row / num_heads as int])
}

/// Rotating `n` rows of `num_heads` heads is rotating `n * num_heads` rows of one head, each token's
/// position repeated for its heads: the same may come out of both.
pub proof fn law_heads_are_rotated_as_rows<U: FloatUnit>(
    cache: &RopeCosSinCache,
    before: Seq<Half>,
    positions: Seq<u32>,
    num_heads: nat,
    head_dim: nat,
    n: nat,
    after: Seq<Half>,
)
    ensures
        cache.turns_each::<U>(before, positions, num_heads, head_dim, n, after)
            == cache.turns_each::<U>(
            before,
            repeat_positions(positions, num_heads, n),
            1,
            head_dim,
            n * num_heads,
            after,
        ),
{
    let heads = num_heads as int;
    let dim = head_dim as int;
    let rows = repeat_positions(positions, num_heads, n);
    let m = n * num_heads;
    assert(n * (heads * dim) == m * (1 * dim)) by (nonlinear_arith)
        requires
            m == n * heads,
    ;
    if cache.turns_each::<U>(before, positions, num_heads, head_dim, n, after) {
        assert forall|t: int, h: int, i: int|
            #![trigger pair_at(t, h, i, 1, dim)]
            0 <= t < m && rows[t] < cache.max_seq_len && 0 <= h < 1 && 0 <= i
                < cache.half_dim implies turns::<U>(
            cache.cos@[rows[t] * cache.half_dim + i],
            cache.sin@[rows[t] * cache.half_dim + i],
            before[pair_at(t, h, i, 1, dim)],
            before[pair_at(t, h, i, 1, dim) + 1],
            after[pair_at(t, h, i, 1, dim)],
            after[pair_at(t, h, i, 1, dim) + 1],
        ) by {
            lemma_rows_are_heads(heads, n as int, t);
            lemma_heads_are_rows(heads, dim, t / heads, t % heads, i);
        }
        assert forall|t: int, h: int, c: int|
            #![trigger component_at(t, h, c, 1, dim)]
            0 <= t < m && 0 <= h < 1 && 0 <= c < dim && (rows[t] >= cache.max_seq_len || c >= 2
                * cache.half_dim) && component_at(t, h, c, 1, dim)
                < before.len() implies after[component_at(t, h, c, 1, dim)]
            == before[component_at(t, h, c, 1, dim)] by {
            lemma_rows_are_heads(heads, n as int, t);
            lemma_heads_are_rows(heads, dim, t / heads, t % heads, c);
        }
    }
    if cache.turns_each::<U>(before, rows, 1, head_dim, m, after) {
        assert forall|t: int, h: int, i: int|
            #![trigger pair_at(t, h, i, heads, dim)]
            0 <= t < n && positions[t] < cache.max_seq_len && 0 <= h < heads && 0 <= i
                < cache.half_dim implies turns::<U>(
            cache.cos@[positions[t] * cache.half_dim + i],
            cache.sin@[positions[t] * cache.half_dim + i],
            before[pair_at(t, h, i, heads, dim)],
            before[pair_at(t, h, i, heads, dim) + 1],
            after[pair_at(t, h, i, heads, dim)],
            after[pair_at(t, h, i, heads, dim) + 1],
        ) by {
            lemma_row_of_head(heads, n as int, t, h);
            lemma_heads_are_rows(heads, dim, t, h, i);
        }
        assert forall|t: int, h: int, c: int|
            #![trigger component_at(t, h, c, heads, dim)]
            0 <= t < n && 0 <= h < heads && 0 <= c < dim && (positions[t] >= cache.max_seq_len || c
                >= 2 * cache.half_dim) && component_at(t, h, c, heads, dim)
                < before.len() implies after[component_at(t, h, c, heads, dim)]
            == before[component_at(t, h, c, heads, dim)] by {
            lemma_row_of_head(heads, n as int, t, h);
            lemma_heads_are_rows(heads, dim, t, h, c);
        }
    }
}

/// The row of one head that belongs to head `h` of token `t`.
proof fn lemma_row_of_head(num_heads: int, n: int, t: int, h: int)
    requires
        0 <= t < n,
        0 <= h < num_heads,
    ensures
        0 <= t * num_heads + h < n * num_heads,
        (t * num_heads + h) / num_heads == t,
{
    assert(0 <= t * num_heads + h < n * num_heads) by (nonlinear_arith)
        requires
            0 <= t < n,
            0 <= h < num_heads,
    ;
    vstd::arithmetic::div_mod::lemma_fundamental_div_mod_converse(
        t * num_heads + h,
        num_heads,
        t,
        h,
    );
}

/// With one result per operands, rotating rows of several heads returns bit for bit what rotating
/// as many rows of one head does.
pub proof fn law_head_layout_does_not_matter<U: FloatUnit>(
    cache: &RopeCosSinCache,
    before: Seq<Half>,
    positions: Seq<u32>,
    num_heads: nat,
    head_dim: nat,
    n: nat,
    after: Seq<Half>,
    after_rows: Seq<Half>,
)
    requires
        crate::float::one_result::<U>(),
        2 * cache.half_dim <= head_dim,
        cache.turns_each::<U>(before, positions, num_heads, head_dim, n, after),
        cache.turns_each::<U>(
            before,
            repeat_positions(positions, num_heads, n),
            1,
            head_dim,
            n * num_heads,
            after_rows,
        ),
    ensures
        after == after_rows,
{
    law_heads_are_rotated_as_rows::<U>(
        cache,
        before,
        positions,
        num_heads,
        head_dim,
        n,
        after_rows,
    );
    law_rotation_has_one_result::<U>(
        cache,
        before,
        positions,
        num_heads,
        head_dim,
        n,
        after,
        after_rows,
    );
}

} // verus!
