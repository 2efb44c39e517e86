//! What full-sequence attention computes, and how its calls relate.
use crate::attn_cpu::bidirectional;
use crate::attn_cpu::CpuBidirectionalAttention;
use crate::bridge::{AttentionBackend, AttentionMetadata, GpuBuffer, RunnerError};
use crate::exact;
use crate::exact::Reading;
use crate::float::{FloatUnit, Half, Single};
use vstd::prelude::*;

verus! {

impl Reading {
    /// The inner product of the first `n` elements of two rows.
    pub open spec fn product(self, x: Seq<Half>, y: Seq<Half>, n: nat) -> real {
        exact::total(|c: int| self.of_half(x[c]) * self.of_half(y[c]), n)
    }

    /// How much a query row attends to a key row: the exponential of their scaled inner product.
    pub open spec fn affinity(self, scale: real, q: Seq<Half>, k: Seq<Half>, dim: nat) -> real {
        (self.exp)(scale * self.product(q, k, dim))
    }
}

proof fn lemma_dot_value<U: FloatUnit>(
    reading: Reading,
    x: Seq<Half>,
    y: Seq<Half>,
    n: nat,
    r: Single,
)
    requires
        reading.never_rounds::<U>(),
        bidirectional::dot_gives::<U>(x, y, n, r),
    ensures
        reading.of(r) == reading.product(x, y, n),
    decreases n,
{
    if n > 0 {
        let (acc, a, b, p) = choose|acc: Single, a: Single, b: Single, p: Single|
            #![trigger Single::multiplies::<U>(a, b, p), Single::adds::<U>(acc, p, r)]
            {
                &&& bidirectional::dot_gives::<U>(x, y, (n - 1) as nat, acc)
                &&& Single::widens::<U>(x[n - 1], a)
                &&& Single::widens::<U>(y[n - 1], b)
                &&& Single::multiplies::<U>(a, b, p)
                &&& Single::adds::<U>(acc, p, r)
            };
        lemma_dot_value::<U>(reading, x, y, (n - 1) as nat, acc);
    }
}

proof fn lemma_sum_value<U: FloatUnit>(reading: Reading, s: Seq<Single>, n: nat, r: Single)
    requires
        reading.never_rounds::<U>(),
        bidirectional::sum_gives::<U>(s, n, r),
    ensures
        r.finite(),
        reading.of(r) == exact::total(|j: int| reading.of(s[j]), n),
    decreases n,
{
    if n > 0 {
        let acc = choose|acc: Single|
            bidirectional::sum_gives::<U>(s, (n - 1) as nat, acc) && #[trigger] Single::adds::<U>(
                acc,
                s[n - 1],
                r,
            );
        lemma_sum_value::<U>(reading, s, (n - 1) as nat, acc);
    }
}

proof fn lemma_mix_value<U: FloatUnit>(
    reading: Reading,
    weights: Seq<Single>,
    values: Seq<Seq<Half>>,
    k: int,
    n: nat,
    r: Single,
)
    requires
        reading.never_rounds::<U>(),
        bidirectional::mix_gives::<U>(weights, values, k, n, r),
    ensures
        reading.of(r) == exact::total(
            |j: int| reading.of(weights[j]) * reading.of_half(values[j][k]),
            n,
        ),
    decreases n,
{
    if n > 0 {
        let (acc, v, p) = choose|acc: Single, v: Single, p: Single|
            #![trigger Single::multiplies::<U>(weights[n - 1], v, p), Single::adds::<U>(acc, p, r)]
            {
                &&& bidirectional::mix_gives::<U>(weights, values, k, (n - 1) as nat, acc)
                &&& Single::widens::<U>(values[n - 1][k], v)
                &&& Single::multiplies::<U>(weights[n - 1], v, p)
                &&& Single::adds::<U>(acc, p, r)
            };
        lemma_mix_value::<U>(reading, weights, values, k, (n - 1) as nat, acc);
    }
}

/// Where nothing rounds, the attention weights stand in the proportions of the affinities and add up
/// to one.
pub proof fn law_weights_are_normalized_affinities<U: FloatUnit>(
    reading: Reading,
    q: Seq<Half>,
    keys: Seq<Seq<Half>>,
    scale: Single,
    weights: Seq<Single>,
)
    requires
        reading.never_rounds::<U>(),
        reading.exponential(),
        keys.len() > 0,
        bidirectional::weights_give::<U>(q, keys, scale, weights),
    ensures
        weights.len() == keys.len(),
        exact::total(|j: int| reading.of(weights[j]), keys.len()) == 1real,
        forall|j: int|
            #![trigger weights[j]]
            0 <= j < keys.len() ==> reading.of(weights[j]) * exact::total(
                |l: int| reading.affinity(reading.of(scale), q, keys[l], q.len()),
                keys.len(),
            ) == reading.affinity(reading.of(scale), q, keys[j], q.len()),
{
    let n = keys.len();
    let s = reading.of(scale);
    let logits = choose|logits: Seq<Single>|
        {
            &&& logits.len() == keys.len()
            &&& forall|j: int|
                0 <= j < keys.len() ==> bidirectional::logit_gives::<U>(
                    q,
                    keys[j],
                    scale,
                    #[trigger] logits[j],
                )
            &&& #[trigger] bidirectional::softmax_gives::<U>(logits, weights)
        };
    let top = bidirectional::greatest(logits, n);
    let (exps, sum, inv) = choose|exps: Seq<Single>, sum: Single, inv: Single|
        #![trigger bidirectional::sum_gives::<U>(exps, logits.len(), sum), bidirectional::inverse_gives::<U>(sum, inv)]
        {
            &&& exps.len() == logits.len()
            &&& weights.len() == logits.len()
            &&& forall|j: int|
                0 <= j < logits.len() ==> bidirectional::shifted_exp_gives::<U>(
                    logits[j],
                    bidirectional::greatest(logits, logits.len()),
                    #[trigger] exps[j],
                )
            &&& bidirectional::sum_gives::<U>(exps, logits.len(), sum)
            &&& bidirectional::inverse_gives::<U>(sum, inv)
            &&& forall|j: int|
                0 <= j < logits.len() ==> Single::multiplies::<U>(
                    exps[j],
                    inv,
                    #[trigger] weights[j],
                )
        };
    let aff = |l: int| reading.affinity(s, q, keys[l], q.len());
    let shift = (reading.exp)(-reading.of(top));
    let e = |j: int| reading.of(exps[j]);
    assert forall|j: int| 0 <= j < n implies #[trigger] e(j) == shift * aff(j) by {
        let l = logits[j];
        assert(bidirectional::logit_gives::<U>(q, keys[j], scale, l));
        let dot = choose|dot: Single|
            bidirectional::dot_gives::<U>(q, keys[j], q.len(), dot)
                && #[trigger] Single::multiplies::<U>(dot, scale, l);
        lemma_dot_value::<U>(reading, q, keys[j], q.len(), dot);
        let x = reading.product(q, keys[j], q.len());
        assert(reading.of(l) == s * x) by {
            assert(x * s == s * x) by (nonlinear_arith);
        }
        assert(bidirectional::shifted_exp_gives::<U>(l, top, exps[j]));
        assert((reading.exp)(s * x + (-reading.of(top))) == (reading.exp)(s * x) * shift);
        let y = (reading.exp)(s * x);
        assert(y * shift == shift * y) by (nonlinear_arith);
    }
    lemma_sum_value::<U>(reading, exps, n, sum);
    exact::lemma_total_scales(e, aff, shift, n);
    assert forall|j: int| 0 <= j < n implies #[trigger] aff(j) > 0real by {}
    exact::lemma_total_positive(aff, n);
    let z = exact::total(aff, n);
    exact::lemma_total_agrees(e, |j: int| reading.of(exps[j]), n);
    assert(reading.of(sum) == shift * z);
    assert(shift * z > 0real) by (nonlinear_arith)
        requires
            shift > 0real,
            z > 0real,
    ;
    assert(Single::zero().less(sum));
    let i = reading.of(inv);
    assert(i * (shift * z) == 1real);
    let w = |j: int| reading.of(weights[j]);
    assert forall|j: int| 0 <= j < n implies #[trigger] w(j) == i * e(j) && w(j) * z == aff(j) by {
        assert(Single::multiplies::<U>(exps[j], inv, weights[j]));
        let a = aff(j);
        let f = e(j);
        assert(f == shift * a);
        assert(f * i == i * f) by (nonlinear_arith);
        assert(i * f * z == a) by (nonlinear_arith)
            requires
                f == shift * a,
                i * (shift * z) == 1real,
        ;
    }
    exact::lemma_total_scales(w, e, i, n);
    exact::lemma_total_agrees(w, |j: int| reading.of(weights[j]), n);
    assert forall|j: int| #![trigger weights[j]] 0 <= j < n implies reading.of(weights[j])
        * exact::total(
        |l: int| reading.affinity(reading.of(scale), q, keys[l], q.len()),
        keys.len(),
    ) == reading.affinity(reading.of(scale), q, keys[j], q.len()) by {
        assert(w(j) * z == aff(j));
        exact::lemma_total_agrees(
            aff,
            |l: int| reading.affinity(reading.of(scale), q, keys[l], q.len()),
            n,
        );
    }
}

/// Where nothing rounds, attention is the mean of all value rows, each weighted by the affinity of
/// the query row to its key row: the output times the sum of the affinities is the sum of the
/// values times their affinities.
pub proof fn law_attention_of_a_row_is_a_weighted_mean<U: FloatUnit>(
    reading: Reading,
    q: Seq<Half>,
    keys: Seq<Seq<Half>>,
    values: Seq<Seq<Half>>,
    scale: Single,
    out: Seq<Half>,
    k: int,
)
    requires
        reading.never_rounds::<U>(),
        reading.exponential(),
        keys.len() > 0,
        values.len() == keys.len(),
        0 <= k < out.len(),
        bidirectional::attends::<U>(q, keys, values, scale, out),
    ensures
        reading.of_half(out[k]) * exact::total(
            |j: int| reading.affinity(reading.of(scale), q, keys[j], q.len()),
            keys.len(),
        ) == exact::total(
            |j: int|
                reading.affinity(reading.of(scale), q, keys[j], q.len()) * reading.of_half(
                    values[j][k],
                ),
            keys.len(),
        ),
{
    let n = keys.len();
    let s = reading.of(scale);
    let weights = choose|weights: Seq<Single>|
        {
            &&& #[trigger] bidirectional::weights_give::<U>(q, keys, scale, weights)
            &&& forall|k: int|
                0 <= k < out.len() ==> bidirectional::component_gives::<U>(
                    weights,
                    values,
                    k,
                    #[trigger] out[k],
                )
        };
    law_weights_are_normalized_affinities::<U>(reading, q, keys, scale, weights);
    let y = out[k];
    assert(bidirectional::component_gives::<U>(weights, values, k, y));
    let acc = choose|acc: Single|
        bidirectional::mix_gives::<U>(weights, values, k, values.len(), acc)
            && #[trigger] Single::narrows::<U>(acc, y);
    lemma_mix_value::<U>(reading, weights, values, k, n, acc);
    let z = exact::total(|j: int| reading.affinity(s, q, keys[j], q.len()), n);
    let terms = |j: int| reading.of(weights[j]) * reading.of_half(values[j][k]);
    let wanted = |j: int|
        reading.affinity(s, q, keys[j], q.len()) * reading.of_half(values[j][k]);
    assert forall|j: int| 0 <= j < n implies #[trigger] wanted(j) == z * terms(j) by {
        let w = reading.of(weights[j]);
        let v = reading.of_half(values[j][k]);
        let a = reading.affinity(s, q, keys[j], q.len());
        assert(w * z == a);
        assert(a * v == z * (w * v)) by (nonlinear_arith)
            requires
                w * z == a,
        ;
    }
    exact::lemma_total_scales(wanted, terms, z, n);
    let t = exact::total(terms, n);
    exact::lemma_total_agrees(
        terms,
        |j: int| reading.of(weights[j]) * reading.of_half(values[j][k]),
        n,
    );
    assert(z * t == t * z) by (nonlinear_arith);
    exact::lemma_total_agrees(
        wanted,
        |j: int|
            reading.affinity(reading.of(scale), q, keys[j], q.len()) * reading.of_half(
                values[j][k],
            ),
        n,
    );
}

/// Sizes that fit together: `rows` rows of query, key and value, and query heads that divide evenly
/// among the key/value heads.
pub open spec fn well_sized(
    num_heads: usize,
    num_kv_heads: usize,
    head_dim: usize,
    query: &GpuBuffer<Half>,
    key: &GpuBuffer<Half>,
    value: &GpuBuffer<Half>,
    rows: nat,
) -> bool {
    &&& num_kv_heads > 0
    &&& num_heads as nat % num_kv_heads as nat == 0
    &&& num_heads * head_dim <= usize::MAX
    &&& num_kv_heads * head_dim <= usize::MAX
    &&& query.shape@.len() > 0
    &&& query.shape@[0] == rows
    &&& query.data@.len() == rows * (num_heads * head_dim)
    &&& key.data@.len() == rows * (num_kv_heads * head_dim)
    &&& value.data@.len() == rows * (num_kv_heads * head_dim)
}

/// Operands of fitting sizes are accepted.
pub proof fn law_well_sized_operands_are_accepted<U: FloatUnit>(
    num_heads: usize,
    num_kv_heads: usize,
    head_dim: usize,
    attention: CpuBidirectionalAttention<U>,
    query: &GpuBuffer<Half>,
    key: &GpuBuffer<Half>,
    value: &GpuBuffer<Half>,
    rows: nat,
    fits: bool,
)
    requires
        call_ensures(
            CpuBidirectionalAttention::<U>::new,
            (num_heads, num_kv_heads, head_dim),
            attention,
        ),
        well_sized(num_heads, num_kv_heads, head_dim, query, key, value, rows),
        call_ensures(
            CpuBidirectionalAttention::<U>::fits,
            (&attention, query, key, value),
            fits,
        ),
    ensures
        attention.accepts(query, key, value),
        fits,
{
    bidirectional::law_even_groups_fit::<U>(&attention, rows);
}

/// The key and value rows that a query head reads, by their places in the tensors: query head `head`
/// of `num_heads` reads key/value head `head * num_kv_heads / num_heads`.
proof fn lemma_kv_head_is_its_share(heads: nat, kv_heads: nat, head: nat)
    requires
        kv_heads > 0,
        heads % kv_heads == 0,
        head < heads,
    ensures
        bidirectional::kv_head_of(heads, kv_heads, head) == (head * kv_heads) / heads,
        (head * kv_heads) / heads < kv_heads,
{
    let group = heads / kv_heads;
    vstd::arithmetic::div_mod::lemma_fundamental_div_mod(heads as int, kv_heads as int);
    assert(heads == kv_heads * group);
    assert(group > 0) by (nonlinear_arith)
        requires
            heads == kv_heads * group,
            heads > 0,
    ;
    let g = head / group;
    let i = head % group;
    vstd::arithmetic::div_mod::lemma_fundamental_div_mod(head as int, group as int);
    assert(head * kv_heads == g * heads + i * kv_heads && 0 <= i * kv_heads < heads)
        by (nonlinear_arith)
        requires
            heads == kv_heads * group,
            head == group * g + i,
            0 <= i < group,
            kv_heads > 0,
    ;
    vstd::arithmetic::div_mod::lemma_fundamental_div_mod_converse(
        (head * kv_heads) as int,
        heads as int,
        g as int,
        (i * kv_heads) as int,
    );
    assert(g < kv_heads) by (nonlinear_arith)
        requires
            heads == kv_heads * group,
            head == group * g + i,
            0 <= i,
            head < heads,
            group > 0,
    ;
}

impl Reading {
    /// The affinity of head `head` of query row `row` to key row `j`, where key/value head `g`
    /// belongs to the head: the exponential of `scale` times the inner product of the two runs of
    /// `dim` elements.
    pub open spec fn affinity_at(
        self,
        scale: real,
        query: Seq<Half>,
        q_start: int,
        key: Seq<Half>,
        k_start: int,
        dim: nat,
    ) -> real {
        (self.exp)(
            scale * exact::total(
                |c: int| self.of_half(query[q_start + c]) * self.of_half(key[k_start + c]),
                dim,
            ),
        )
    }
}

/// What attention is for: where nothing rounds, element `k` of head `head` in row `row` of the output
/// is the mean of element `k` of the head's key/value head over all value rows, weighted by the
/// exponentials of the inner products of the head's query row with the key rows, divided by the
/// square root of the head size. The inverse of that root is returned.
pub proof fn law_attention_is_a_weighted_mean<U: FloatUnit>(
    reading: Reading,
    num_heads: usize,
    num_kv_heads: usize,
    head_dim: usize,
    attention: CpuBidirectionalAttention<U>,
    query: &GpuBuffer<Half>,
    key: &GpuBuffer<Half>,
    value: &GpuBuffer<Half>,
    metadata: &AttentionMetadata,
    layer_idx: usize,
    r: Result<GpuBuffer<Half>, RunnerError>,
    rows: nat,
    row: int,
    head: nat,
    k: int,
) -> (scale: real)
    requires
        reading.never_rounds::<U>(),
        reading.exponential(),
        call_ensures(
            CpuBidirectionalAttention::<U>::new,
            (num_heads, num_kv_heads, head_dim),
            attention,
        ),
        call_ensures(
            CpuBidirectionalAttention::<U>::forward,
            (&attention, query, key, value, metadata, layer_idx),
            r,
        ),
        well_sized(num_heads, num_kv_heads, head_dim, query, key, value, rows),
        0 <= row < rows,
        head < num_heads,
        0 <= k < head_dim,
    ensures
        scale > 0real,
        scale * scale * exact::whole(head_dim as nat) == 1real,
        r is Ok,
        r->Ok_0.shape@ == seq![rows as usize, (num_heads * head_dim) as usize],
        r->Ok_0.data@.len() == rows * (num_heads * head_dim),
        ({
            let features = num_heads * head_dim;
            let kv_features = num_kv_heads * head_dim;
            let g = (head * num_kv_heads as nat) / num_heads as nat;
            let q_start = row * features + head * head_dim;
            let affinity = |j: int|
                reading.affinity_at(
                    scale,
                    query.data@,
                    q_start,
                    key.data@,
                    j * kv_features + g * head_dim,
                    head_dim as nat,
                );
            reading.of_half(r->Ok_0.data@[q_start + k]) * exact::total(affinity, rows)
                == exact::total(
                |j: int|
                    affinity(j) * reading.of_half(
                        value.data@[j * kv_features + g * head_dim + k],
                    ),
                rows,
            )
        }),
{
    bidirectional::law_even_groups_fit::<U>(&attention, rows);
    let out = r->Ok_0;
    let heads = num_heads as int;
    let kv_heads = num_kv_heads as int;
    let dim = head_dim as int;
    lemma_kv_head_is_its_share(num_heads as nat, num_kv_heads as nat, head);
    let g = ((head * num_kv_heads as nat) / num_heads as nat) as int;
    let scale = reading.of(attention.scaling());
    lemma_scale_value::<U>(reading, head_dim, attention.scaling());
    let q = bidirectional::head_row(query.data@, row, heads * dim, head as int, dim);
    let keys = bidirectional::head_rows(key.data@, rows, kv_heads * dim, g, dim);
    let values = bidirectional::head_rows(value.data@, rows, kv_heads * dim, g, dim);
    let part = bidirectional::head_row(out.data@, row, heads * dim, head as int, dim);
    bidirectional::lemma_head_row_in_bounds(rows as int, row, heads, head as int, dim);
    assert(attention.head_attends(query, key, value, row, head as int, part));
    law_attention_of_a_row_is_a_weighted_mean::<U>(
        reading,
        q,
        keys,
        values,
        attention.scaling(),
        part,
        k,
    );
    let q_start = row * (heads * dim) + head * dim;
    let plain = |j: int| reading.affinity(scale, q, keys[j], q.len());
    let placed = |j: int|
        reading.affinity_at(
            scale,
            query.data@,
            q_start,
            key.data@,
            j * (kv_heads * dim) + g * dim,
            head_dim as nat,
        );
    assert forall|j: int| 0 <= j < rows implies #[trigger] plain(j) == placed(j) && values[j][k]
        == value.data@[j * (kv_heads * dim) + g * dim + k] by {
        bidirectional::lemma_head_row_in_bounds(rows as int, j, kv_heads, g, dim);
        let k_start = j * (kv_heads * dim) + g * dim;
        exact::lemma_total_agrees(
            |c: int| reading.of_half(q[c]) * reading.of_half(keys[j][c]),
            |c: int| reading.of_half(query.data@[q_start + c]) * reading.of_half(
                key.data@[k_start + c],
            ),
            head_dim as nat,
        );
    }
    exact::lemma_total_agrees(
        |j: int| reading.affinity(reading.of(attention.scaling()), q, keys[j], q.len()),
        placed,
        rows,
    );
    let plain_terms = |j: int|
        reading.affinity(reading.of(attention.scaling()), q, keys[j], q.len()) * reading.of_half(
            values[j][k],
        );
    let placed_terms = |j: int|
        placed(j) * reading.of_half(value.data@[j * (kv_heads * dim) + g * dim + k]);
    assert forall|j: int| 0 <= j < rows implies #[trigger] plain_terms(j) == placed_terms(j) by {
        assert(plain(j) == placed(j));
    }
    exact::lemma_total_agrees(plain_terms, placed_terms, rows);
    assert(part[k] == out.data@[q_start + k]);
    scale
}

proof fn lemma_scale_value<U: FloatUnit>(reading: Reading, head_dim: usize, scale: Single)
    requires
        reading.never_rounds::<U>(),
        bidirectional::scale_gives::<U>(head_dim, scale),
    ensures
        reading.of(scale) > 0real,
        reading.of(scale) * reading.of(scale) * exact::whole(head_dim as nat) == 1real,
{
    let (d, root) = choose|d: Single, root: Single|
        #![trigger Single::roots::<U>(d, root)]
        {
            &&& Single::converts::<U>(head_dim, d)
            &&& Single::roots::<U>(d, root)
            &&& Single::divides::<U>(Single::one(), root, scale)
        };
    let s = reading.of(scale);
    let t = reading.of(root);
    let n = exact::whole(head_dim as nat);
    assert(s * t == 1real && t >= 0real && t * t == n);
    assert(s > 0real && s * s * n == 1real) by (nonlinear_arith)
        requires
            s * t == 1real,
            t >= 0real,
            t * t == n,
    ;
}

/// The sum over the value rows, where only row `j` is not zero.
proof fn lemma_mix_of_one_row<U: FloatUnit>(
    weights: Seq<Single>,
    values: Seq<Seq<Half>>,
    j: int,
    k: int,
    n: nat,
    r: Single,
)
    requires
        crate::float::zeros_add_nothing::<U>(),
        0 <= j,
        forall|i: int| 0 <= i < n ==> (#[trigger] weights[i]).finite(),
        forall|i: int| 0 <= i < n && i != j ==> (#[trigger] values[i])[k].is_zero(),
        bidirectional::mix_gives::<U>(weights, values, k, n, r),
    ensures
        n <= j ==> r.rank() == 0,
        n > j ==> exists|v: Single, p: Single|
            #![trigger Single::multiplies::<U>(weights[j], v, p)]
            {
                &&& Single::widens::<U>(values[j][k], v)
                &&& Single::multiplies::<U>(weights[j], v, p)
                &&& p.finite() ==> r.finite() && r.same_value(p)
            },
    decreases n,
{
    if n > 0 {
        let (acc, v, p) = choose|acc: Single, v: Single, p: Single|
            #![trigger Single::multiplies::<U>(weights[n - 1], v, p), Single::adds::<U>(acc, p, r)]
            {
                &&& bidirectional::mix_gives::<U>(weights, values, k, (n - 1) as nat, acc)
                &&& Single::widens::<U>(values[n - 1][k], v)
                &&& Single::multiplies::<U>(weights[n - 1], v, p)
                &&& Single::adds::<U>(acc, p, r)
            };
        lemma_mix_of_one_row::<U>(weights, values, j, k, (n - 1) as nat, acc);
        assert(weights[n - 1].finite());
        if n - 1 == j {
            assert(Single::multiplies::<U>(weights[j], v, p));
        } else {
            assert(values[n - 1][k].is_zero());
            assert(p.rank() == 0);
            if n > j {
                let (w, q) = choose|v: Single, p: Single|
                    #![trigger Single::multiplies::<U>(weights[j], v, p)]
                    {
                        &&& Single::widens::<U>(values[j][k], v)
                        &&& Single::multiplies::<U>(weights[j], v, p)
                        &&& p.finite() ==> acc.finite() && acc.same_value(p)
                    };
                assert(Single::multiplies::<U>(weights[j], w, q));
            }
        }
    }
}

/// Every value row counts: where all rows but row `j` hold zeros in component `k`, component `k` of
/// the output is the weight of row `j` times its value, rounded, whichever row it is. The weights
/// and the product have to be finite.
pub proof fn law_every_value_row_counts<U: FloatUnit>(
    q: Seq<Half>,
    keys: Seq<Seq<Half>>,
    values: Seq<Seq<Half>>,
    scale: Single,
    out: Seq<Half>,
    j: int,
    k: int,
) -> (r: (Seq<Single>, Single, Single, Single))
    requires
        crate::float::zeros_add_nothing::<U>(),
        values.len() == keys.len(),
        0 <= j < values.len(),
        0 <= k < out.len(),
        forall|i: int| 0 <= i < values.len() && i != j ==> (#[trigger] values[i])[k].is_zero(),
        forall|weights: Seq<Single>, i: int|
            #![trigger bidirectional::weights_give::<U>(q, keys, scale, weights), weights[i]]
            bidirectional::weights_give::<U>(q, keys, scale, weights) && 0 <= i < keys.len()
                ==> weights[i].finite(),
        bidirectional::attends::<U>(q, keys, values, scale, out),
    ensures
        ({
            let (weights, v, p, sum) = r;
            &&& bidirectional::weights_give::<U>(q, keys, scale, weights)
            &&& Single::widens::<U>(values[j][k], v)
            &&& Single::multiplies::<U>(weights[j], v, p)
            &&& p.finite() ==> sum.same_value(p)
            &&& Single::narrows::<U>(sum, out[k])
        }),
{
    let weights = choose|weights: Seq<Single>|
        {
            &&& #[trigger] bidirectional::weights_give::<U>(q, keys, scale, weights)
            &&& forall|k: int|
                0 <= k < out.len() ==> bidirectional::component_gives::<U>(
                    weights,
                    values,
                    k,
                    #[trigger] out[k],
                )
        };
    let y = out[k];
    assert(bidirectional::component_gives::<U>(weights, values, k, y));
    let acc = choose|acc: Single|
        bidirectional::mix_gives::<U>(weights, values, k, values.len(), acc)
            && #[trigger] Single::narrows::<U>(acc, y);
    lemma_mix_of_one_row::<U>(weights, values, j, k, values.len(), acc);
    let (v, p) = choose|v: Single, p: Single|
        #![trigger Single::multiplies::<U>(weights[j], v, p)]
        {
            &&& Single::widens::<U>(values[j][k], v)
            &&& Single::multiplies::<U>(weights[j], v, p)
            &&& p.finite() ==> acc.finite() && acc.same_value(p)
        };
    (weights, v, p, acc)
}

/// Equal key rows share their weight, wherever they stand.
pub proof fn law_equal_keys_share_their_weight<U: FloatUnit>(
    q: Seq<Half>,
    keys: Seq<Seq<Half>>,
    scale: Single,
    weights: Seq<Single>,
    i: int,
    j: int,
)
    requires
        crate::float::one_result::<U>(),
        bidirectional::weights_give::<U>(q, keys, scale, weights),
        0 <= i < keys.len(),
        0 <= j < keys.len(),
        keys[i] == keys[j],
    ensures
        weights.len() == keys.len(),
        weights[i] == weights[j],
{
    let logits = choose|logits: Seq<Single>|
        {
            &&& logits.len() == keys.len()
            &&& forall|j: int|
                0 <= j < keys.len() ==> bidirectional::logit_gives::<U>(
                    q,
                    keys[j],
                    scale,
                    #[trigger] logits[j],
                )
            &&& #[trigger] bidirectional::softmax_gives::<U>(logits, weights)
        };
    bidirectional::lemma_logit_has_one_result::<U>(q, keys[i], scale, logits[i], logits[j]);
    let (exps, sum, inv) = choose|exps: Seq<Single>, sum: Single, inv: Single|
        #![trigger bidirectional::sum_gives::<U>(exps, logits.len(), sum), bidirectional::inverse_gives::<U>(sum, inv)]
        {
            &&& exps.len() == logits.len()
            &&& weights.len() == logits.len()
            &&& forall|j: int|
                0 <= j < logits.len() ==> bidirectional::shifted_exp_gives::<U>(
                    logits[j],
                    bidirectional::greatest(logits, logits.len()),
                    #[trigger] exps[j],
                )
            &&& bidirectional::sum_gives::<U>(exps, logits.len(), sum)
            &&& bidirectional::inverse_gives::<U>(sum, inv)
            &&& forall|j: int|
                0 <= j < logits.len() ==> Single::multiplies::<U>(
                    exps[j],
                    inv,
                    #[trigger] weights[j],
                )
        };
    let top = bidirectional::greatest(logits, logits.len());
    assert(bidirectional::shifted_exp_gives::<U>(logits[i], top, exps[i]));
    assert(bidirectional::shifted_exp_gives::<U>(logits[j], top, exps[j]));
    assert(Single::multiplies::<U>(exps[i], inv, weights[i]));
    assert(Single::multiplies::<U>(exps[j], inv, weights[j]));
}

/// No exponent of the softmax is positive: the value that is subtracted from every logit is at least
/// each of them that is a number, and is one of them unless none is above negative infinity.
pub proof fn law_the_greatest_bounds_all(s: Seq<Single>, n: nat)
    requires
        n <= s.len(),
    ensures
        !bidirectional::greatest(s, n).undefined(),
        forall|j: int|
            0 <= j < n && !(#[trigger] s[j]).undefined() ==> s[j].at_most(
                bidirectional::greatest(s, n),
            ),
        bidirectional::greatest(s, n) == Single::neg_infinity() || exists|j: int|
            0 <= j < n && #[trigger] s[j] == bidirectional::greatest(s, n),
    decreases n,
{
    if n > 0 {
        law_the_greatest_bounds_all(s, (n - 1) as nat);
        let before = bidirectional::greatest(s, (n - 1) as nat);
        let now = bidirectional::greatest(s, n);
        assert(now == before || now == s[n - 1]);
        assert forall|j: int| 0 <= j < n && !(#[trigger] s[j]).undefined() implies s[j].at_most(
            now,
        ) by {
            if j < n - 1 {
                assert(s[j].at_most(before));
            }
        }
    }
}

/// Of two rows the product reads only the components it adds up.
proof fn lemma_dot_reads_a_prefix<U: FloatUnit>(
    x: Seq<Half>,
    y: Seq<Half>,
    u: Seq<Half>,
    v: Seq<Half>,
    n: nat,
    r: Single,
)
    requires
        forall|i: int| 0 <= i < n ==> #[trigger] x[i] == u[i],
        forall|i: int| 0 <= i < n ==> #[trigger] y[i] == v[i],
        bidirectional::dot_gives::<U>(x, y, n, r),
    ensures
        bidirectional::dot_gives::<U>(u, v, n, r),
    decreases n,
{
    if n > 0 {
        let (acc, a, b, p) = choose|acc: Single, a: Single, b: Single, p: Single|
            #![trigger Single::multiplies::<U>(a, b, p), Single::adds::<U>(acc, p, r)]
            {
                &&& bidirectional::dot_gives::<U>(x, y, (n - 1) as nat, acc)
                &&& Single::widens::<U>(x[n - 1], a)
                &&& Single::widens::<U>(y[n - 1], b)
                &&& Single::multiplies::<U>(a, b, p)
                &&& Single::adds::<U>(acc, p, r)
            };
        lemma_dot_reads_a_prefix::<U>(x, y, u, v, (n - 1) as nat, acc);
        assert(Single::multiplies::<U>(a, b, p) && Single::adds::<U>(acc, p, r));
    }
}

/// One component more adds one product: the product of two longer rows is that of the shorter ones,
/// plus the product of the last components. This holds at every length.
pub proof fn law_a_component_adds_its_product<U: FloatUnit>(
    x: Seq<Half>,
    y: Seq<Half>,
    a: Half,
    b: Half,
    r: Single,
) -> (w: (Single, Single, Single, Single))
    requires
        x.len() == y.len(),
        bidirectional::dot_gives::<U>(x.push(a), y.push(b), x.len() + 1, r),
    ensures
        bidirectional::dot_gives::<U>(x, y, x.len(), w.0),
        Single::widens::<U>(a, w.1),
        Single::widens::<U>(b, w.2),
        Single::multiplies::<U>(w.1, w.2, w.3),
        Single::adds::<U>(w.0, w.3, r),
{
    let xs = x.push(a);
    let ys = y.push(b);
    let n = x.len() + 1;
    let (acc, v, u, p) = choose|acc: Single, v: Single, u: Single, p: Single|
        #![trigger Single::multiplies::<U>(v, u, p), Single::adds::<U>(acc, p, r)]
        {
            &&& bidirectional::dot_gives::<U>(xs, ys, (n - 1) as nat, acc)
            &&& Single::widens::<U>(xs[n - 1], v)
            &&& Single::widens::<U>(ys[n - 1], u)
            &&& Single::multiplies::<U>(v, u, p)
            &&& Single::adds::<U>(acc, p, r)
        };
    lemma_dot_reads_a_prefix::<U>(xs, ys, x, y, x.len(), acc);
    (acc, v, u, p)
}

/// Of weights and value rows the mix reads only the rows it adds up.
proof fn lemma_mix_reads_a_prefix<U: FloatUnit>(
    weights: Seq<Single>,
    values: Seq<Seq<Half>>,
    others: Seq<Single>,
    rows: Seq<Seq<Half>>,
    k: int,
    n: nat,
    r: Single,
)
    requires
        forall|i: int| 0 <= i < n ==> #[trigger] weights[i] == others[i],
        forall|i: int| 0 <= i < n ==> #[trigger] values[i] == rows[i],
        bidirectional::mix_gives::<U>(weights, values, k, n, r),
    ensures
        bidirectional::mix_gives::<U>(others, rows, k, n, r),
    decreases n,
{
    if n > 0 {
        let (acc, v, p) = choose|acc: Single, v: Single, p: Single|
            #![trigger Single::multiplies::<U>(weights[n - 1], v, p), Single::adds::<U>(acc, p, r)]
            {
                &&& bidirectional::mix_gives::<U>(weights, values, k, (n - 1) as nat, acc)
                &&& Single::widens::<U>(values[n - 1][k], v)
                &&& Single::multiplies::<U>(weights[n - 1], v, p)
                &&& Single::adds::<U>(acc, p, r)
            };
        lemma_mix_reads_a_prefix::<U>(weights, values, others, rows, k, (n - 1) as nat, acc);
        assert(values[n - 1] == rows[n - 1]);
        assert(Single::multiplies::<U>(others[n - 1], v, p) && Single::adds::<U>(acc, p, r));
    }
}

/// One row more adds one product: the mix of one more value row is that of the rows before it, plus
/// its weight times its value. This holds at every number of rows.
pub proof fn law_a_value_row_adds_its_product<U: FloatUnit>(
    weights: Seq<Single>,
    values: Seq<Seq<Half>>,
    weight: Single,
    row: Seq<Half>,
    k: int,
    r: Single,
) -> (w: (Single, Single, Single))
    requires
        weights.len() == values.len(),
        bidirectional::mix_gives::<U>(
            weights.push(weight),
            values.push(row),
            k,
            values.len() + 1,
            r,
        ),
    ensures
        bidirectional::mix_gives::<U>(weights, values, k, values.len(), w.0),
        Single::widens::<U>(row[k], w.1),
        Single::multiplies::<U>(weight, w.1, w.2),
        Single::adds::<U>(w.0, w.2, r),
{
    let ws = weights.push(weight);
    let vs = values.push(row);
    let n = values.len() + 1;
    let (acc, v, p) = choose|acc: Single, v: Single, p: Single|
        #![trigger Single::multiplies::<U>(ws[n - 1], v, p), Single::adds::<U>(acc, p, r)]
        {
            &&& bidirectional::mix_gives::<U>(ws, vs, k, (n - 1) as nat, acc)
            &&& Single::widens::<U>(vs[n - 1][k], v)
            &&& Single::multiplies::<U>(ws[n - 1], v, p)
            &&& Single::adds::<U>(acc, p, r)
        };
    lemma_mix_reads_a_prefix::<U>(ws, vs, weights, values, k, values.len(), acc);
    (acc, v, p)
}

/// Of a sequence the sum reads only the values it adds up.
proof fn lemma_sum_reads_a_prefix<U: FloatUnit>(
    s: Seq<Single>,
    t: Seq<Single>,
    n: nat,
    r: Single,
)
    requires
        forall|i: int| 0 <= i < n ==> #[trigger] s[i] == t[i],
        bidirectional::sum_gives::<U>(s, n, r),
    ensures
        bidirectional::sum_gives::<U>(t, n, r),
    decreases n,
{
    if n > 0 {
        let acc = choose|acc: Single|
            bidirectional::sum_gives::<U>(s, (n - 1) as nat, acc) && #[trigger] Single::adds::<U>(
                acc,
                s[n - 1],
                r,
            );
        lemma_sum_reads_a_prefix::<U>(s, t, (n - 1) as nat, acc);
        assert(s[n - 1] == t[n - 1]);
        assert(Single::adds::<U>(acc, t[n - 1], r));
    }
}

/// One exponential more is added to their sum, at every length.
pub proof fn law_an_exponential_adds_to_the_sum<U: FloatUnit>(
    s: Seq<Single>,
    x: Single,
    r: Single,
) -> (acc: Single)
    requires
        bidirectional::sum_gives::<U>(s.push(x), s.len() + 1, r),
    ensures
        bidirectional::sum_gives::<U>(s, s.len(), acc),
        Single::adds::<U>(acc, x, r),
{
    let t = s.push(x);
    let n = s.len() + 1;
    let acc = choose|acc: Single|
        bidirectional::sum_gives::<U>(t, (n - 1) as nat, acc) && #[trigger] Single::adds::<U>(
            acc,
            t[n - 1],
            r,
        );
    lemma_sum_reads_a_prefix::<U>(t, s, s.len(), acc);
    acc
}

/// The softmax reads differences only: two rows of logits whose distances to their greatest agree
/// have the same weights, so no exponential is taken of a logit itself.
pub proof fn law_softmax_reads_distances_to_the_greatest<U: FloatUnit>(
    logits: Seq<Single>,
    weights: Seq<Single>,
    others: Seq<Single>,
    other_weights: Seq<Single>,
)
    requires
        crate::float::one_result::<U>(),
        logits.len() == others.len(),
        forall|j: int, d: Single, e: Single|
            #![trigger Single::subtracts::<U>(logits[j], bidirectional::greatest(logits, logits.len()), d), Single::subtracts::<U>(others[j], bidirectional::greatest(others, others.len()), e)]
            0 <= j < logits.len() && Single::subtracts::<U>(
                logits[j],
                bidirectional::greatest(logits, logits.len()),
                d,
            ) && Single::subtracts::<U>(
                others[j],
                bidirectional::greatest(others, others.len()),
                e,
            ) ==> d == e,
        bidirectional::softmax_gives::<U>(logits, weights),
        bidirectional::softmax_gives::<U>(others, other_weights),
    ensures
        weights == other_weights,
{
    let n = logits.len();
    let top = bidirectional::greatest(logits, logits.len());
    let other_top = bidirectional::greatest(others, others.len());
    let (exps, sum, inv) = choose|exps: Seq<Single>, sum: Single, inv: Single|
        #![trigger bidirectional::sum_gives::<U>(exps, logits.len(), sum), bidirectional::inverse_gives::<U>(sum, inv)]
        {
            &&& exps.len() == logits.len()
            &&& weights.len() == logits.len()
            &&& forall|j: int|
                0 <= j < logits.len() ==> bidirectional::shifted_exp_gives::<U>(
                    logits[j],
                    bidirectional::greatest(logits, logits.len()),
                    #[trigger] exps[j],
                )
            &&& bidirectional::sum_gives::<U>(exps, logits.len(), sum)
            &&& bidirectional::inverse_gives::<U>(sum, inv)
            &&& forall|j: int|
                0 <= j < logits.len() ==> Single::multiplies::<U>(
                    exps[j],
                    inv,
                    #[trigger] weights[j],
                )
        };
    let (exps2, sum2, inv2) = choose|exps: Seq<Single>, sum: Single, inv: Single|
        #![trigger bidirectional::sum_gives::<U>(exps, others.len(), sum), bidirectional::inverse_gives::<U>(sum, inv)]
        {
            &&& exps.len() == others.len()
            &&& other_weights.len() == others.len()
            &&& forall|j: int|
                0 <= j < others.len() ==> bidirectional::shifted_exp_gives::<U>(
                    others[j],
                    bidirectional::greatest(others, others.len()),
                    #[trigger] exps[j],
                )
            &&& bidirectional::sum_gives::<U>(exps, others.len(), sum)
            &&& bidirectional::inverse_gives::<U>(sum, inv)
            &&& forall|j: int|
                0 <= j < others.len() ==> Single::multiplies::<U>(
                    exps[j],
                    inv,
                    #[trigger] other_weights[j],
                )
        };
    assert forall|j: int| 0 <= j < n implies exps[j] == exps2[j] by {
        assert(bidirectional::shifted_exp_gives::<U>(logits[j], top, exps[j]));
        assert(bidirectional::shifted_exp_gives::<U>(others[j], other_top, exps2[j]));
        let d = choose|d: Single|
            Single::subtracts::<U>(logits[j], top, d) && #[trigger] Single::exponentiates::<U>(
                d,
                exps[j],
            );
        let e = choose|d: Single|
            Single::subtracts::<U>(others[j], other_top, d) && #[trigger] Single::exponentiates::<
                U,
            >(d, exps2[j]);
        assert(d == e);
    }
    assert(exps =~= exps2);
    bidirectional::lemma_sum_has_one_result::<U>(exps, n, sum, sum2);
    assert(inv == inv2);
    assert forall|j: int| 0 <= j < n implies weights[j] == other_weights[j] by {
        assert(Single::multiplies::<U>(exps[j], inv, weights[j]));
        assert(Single::multiplies::<U>(exps2[j], inv2, other_weights[j]));
    }
    assert(weights =~= other_weights);
}

/// The greatest of equal finite values is their value.
proof fn lemma_greatest_of_equals(s: Seq<Single>, x: Single, n: nat)
    requires
        x.finite(),
        n <= s.len(),
        forall|j: int| 0 <= j < n ==> #[trigger] s[j] == x,
    ensures
        n > 0 ==> bidirectional::greatest(s, n) == x,
    decreases n,
{
    if n > 0 {
        lemma_greatest_of_equals(s, x, (n - 1) as nat);
        assert(s[n - 1] == x);
        if n == 1 {
            assert(bidirectional::greatest(s, 0) == Single::neg_infinity());
            assert(Single::neg_infinity().less(x));
        }
    }
}

/// As many ones.
pub open spec fn ones(n: nat) -> Seq<Single> {
    Seq::new(n, |j: int| Single::one())
}

/// Where all key rows are equal, all rows share equally: each weight is one divided by the sum of as
/// many ones as there are rows.
pub proof fn law_equal_keys_share_equally<U: FloatUnit>(
    q: Seq<Half>,
    keys: Seq<Seq<Half>>,
    scale: Single,
    weights: Seq<Single>,
) -> (sum: Single)
    requires
        crate::float::one_result::<U>(),
        crate::float::exact_identities::<U>(),
        keys.len() > 0,
        forall|j: int| 0 <= j < keys.len() ==> #[trigger] keys[j] == keys[0],
        forall|logit: Single| #[trigger]
            bidirectional::logit_gives::<U>(q, keys[0], scale, logit) ==> logit.finite(),
        forall|sum: Single| #[trigger]
            bidirectional::sum_gives::<U>(ones(keys.len()), keys.len(), sum)
                ==> Single::zero().less(sum),
        forall|sum: Single, inv: Single| #[trigger]
            Single::divides::<U>(Single::one(), sum, inv) && Single::zero().less(sum)
                ==> !inv.undefined(),
        bidirectional::weights_give::<U>(q, keys, scale, weights),
    ensures
        bidirectional::sum_gives::<U>(ones(keys.len()), keys.len(), sum),
        weights.len() == keys.len(),
        forall|j: int|
            0 <= j < keys.len() ==> Single::divides::<U>(
                Single::one(),
                sum,
                #[trigger] weights[j],
            ),
{
    let n = keys.len();
    let logits = choose|logits: Seq<Single>|
        {
            &&& logits.len() == keys.len()
            &&& forall|j: int|
                0 <= j < keys.len() ==> bidirectional::logit_gives::<U>(
                    q,
                    keys[j],
                    scale,
                    #[trigger] logits[j],
                )
            &&& #[trigger] bidirectional::softmax_gives::<U>(logits, weights)
        };
    let x = logits[0];
    assert(bidirectional::logit_gives::<U>(q, keys[0], scale, x));
    assert forall|j: int| 0 <= j < n implies #[trigger] logits[j] == x by {
        assert(keys[j] == keys[0]);
        bidirectional::lemma_logit_has_one_result::<U>(q, keys[0], scale, x, logits[j]);
    }
    lemma_greatest_of_equals(logits, x, n);
    let (exps, sum, inv) = choose|exps: Seq<Single>, sum: Single, inv: Single|
        #![trigger bidirectional::sum_gives::<U>(exps, logits.len(), sum), bidirectional::inverse_gives::<U>(sum, inv)]
        {
            &&& exps.len() == logits.len()
            &&& weights.len() == logits.len()
            &&& forall|j: int|
                0 <= j < logits.len() ==> bidirectional::shifted_exp_gives::<U>(
                    logits[j],
                    bidirectional::greatest(logits, logits.len()),
                    #[trigger] exps[j],
                )
            &&& bidirectional::sum_gives::<U>(exps, logits.len(), sum)
            &&& bidirectional::inverse_gives::<U>(sum, inv)
            &&& forall|j: int|
                0 <= j < logits.len() ==> Single::multiplies::<U>(
                    exps[j],
                    inv,
                    #[trigger] weights[j],
                )
        };
    assert forall|j: int| 0 <= j < n implies exps[j] == ones(n)[j] by {
        assert(bidirectional::shifted_exp_gives::<U>(x, x, exps[j])) by {
            assert(logits[j] == x);
        }
    }
    assert(exps =~= ones(n));
    assert forall|j: int| 0 <= j < keys.len() implies Single::divides::<U>(
        Single::one(),
        sum,
        #[trigger] weights[j],
    ) by {
        assert(Single::multiplies::<U>(exps[j], inv, weights[j]));
        assert(Single::multiplies::<U>(Single::one(), inv, weights[j]));
    }
    sum
}

/// Attention returns as many rows as the query has, each of all heads, none included.
pub proof fn law_attention_keeps_the_rows<U: FloatUnit>(
    num_heads: usize,
    num_kv_heads: usize,
    head_dim: usize,
    attention: CpuBidirectionalAttention<U>,
    query: &GpuBuffer<Half>,
    key: &GpuBuffer<Half>,
    value: &GpuBuffer<Half>,
    metadata: &AttentionMetadata,
    layer_idx: usize,
    r: Result<GpuBuffer<Half>, RunnerError>,
    rows: nat,
)
    requires
        call_ensures(
            CpuBidirectionalAttention::<U>::new,
            (num_heads, num_kv_heads, head_dim),
            attention,
        ),
        call_ensures(
            CpuBidirectionalAttention::<U>::forward,
            (&attention, query, key, value, metadata, layer_idx),
            r,
        ),
        well_sized(num_heads, num_kv_heads, head_dim, query, key, value, rows),
    ensures
        r is Ok,
        r->Ok_0.shape@ == seq![rows as usize, (num_heads * head_dim) as usize],
        r->Ok_0.data@.len() == rows * (num_heads * head_dim),
{
    bidirectional::law_even_groups_fit::<U>(&attention, rows);
}

/// A scale of one leaves the product of two rows as it is, at full precision, where it is a number.
pub proof fn law_scale_one_keeps_the_product<U: FloatUnit>(q: Seq<Half>, k: Seq<Half>, r: Single)
    requires
        forall|x: Single, y: Single| #[trigger]
            call_ensures(U::times, (x, Single::one()), y) && !x.undefined() ==> y == x,
        forall|x: Single| #[trigger]
            bidirectional::dot_gives::<U>(q, k, q.len(), x) ==> !x.undefined(),
        bidirectional::logit_gives::<U>(q, k, Single::one(), r),
    ensures
        bidirectional::dot_gives::<U>(q, k, q.len(), r),
{
}

/// Weights come out at full precision: there is one factor for all of them, and each is the
/// exponential of a logit's distance to the greatest, times that factor. Where the exponentials
/// have a positive sum, the factor is one divided by it.
pub proof fn law_weights_share_one_factor<U: FloatUnit>(
    logits: Seq<Single>,
    weights: Seq<Single>,
) -> (found: (Seq<Single>, Seq<Single>, Single, Single))
    requires
        bidirectional::softmax_gives::<U>(logits, weights),
    ensures
        ({
            let (distances, exps, sum, factor) = found;
            &&& weights.len() == logits.len()
            &&& distances.len() == logits.len()
            &&& exps.len() == logits.len()
            &&& forall|j: int|
                #![trigger weights[j]]
                0 <= j < logits.len() ==> {
                    &&& call_ensures(
                        U::minus,
                        (logits[j], bidirectional::greatest(logits, logits.len())),
                        distances[j],
                    )
                    &&& call_ensures(U::exponential, (distances[j],), exps[j])
                    &&& call_ensures(U::times, (exps[j], factor), weights[j])
                }
            &&& bidirectional::sum_gives::<U>(exps, logits.len(), sum)
            &&& Single::zero().less(sum) ==> call_ensures(U::over, (Single::one(), sum), factor)
            &&& !Single::zero().less(sum) ==> factor == Single::zero()
        }),
{
    let n = logits.len();
    let top = bidirectional::greatest(logits, logits.len());
    let (exps, sum, inv) = choose|exps: Seq<Single>, sum: Single, inv: Single|
        #![trigger bidirectional::sum_gives::<U>(exps, logits.len(), sum), bidirectional::inverse_gives::<U>(sum, inv)]
        {
            &&& exps.len() == logits.len()
            &&& weights.len() == logits.len()
            &&& forall|j: int|
                0 <= j < logits.len() ==> bidirectional::shifted_exp_gives::<U>(
                    logits[j],
                    bidirectional::greatest(logits, logits.len()),
                    #[trigger] exps[j],
                )
            &&& bidirectional::sum_gives::<U>(exps, logits.len(), sum)
            &&& bidirectional::inverse_gives::<U>(sum, inv)
            &&& forall|j: int|
                0 <= j < logits.len() ==> Single::multiplies::<U>(
                    exps[j],
                    inv,
                    #[trigger] weights[j],
                )
        };
    let distances = Seq::new(
        n,
        |j: int|
            choose|d: Single|
                Single::subtracts::<U>(logits[j], top, d) && #[trigger] Single::exponentiates::<U>(
                    d,
                    exps[j],
                ),
    );
    assert forall|j: int| #![trigger weights[j]] 0 <= j < n implies {
        &&& call_ensures(U::minus, (logits[j], top), distances[j])
        &&& call_ensures(U::exponential, (distances[j],), exps[j])
        &&& call_ensures(U::times, (exps[j], inv), weights[j])
    } by {
        assert(bidirectional::shifted_exp_gives::<U>(logits[j], top, exps[j]));
        let d = choose|d: Single|
            Single::subtracts::<U>(logits[j], top, d) && #[trigger] Single::exponentiates::<U>(
                d,
                exps[j],
            );
        assert(distances[j] == d);
    }
    (distances, exps, sum, inv)
}

/// A component of the output is rounded to 16 bits once, at the end.
pub proof fn law_a_component_is_rounded_once<U: FloatUnit>(
    weights: Seq<Single>,
    values: Seq<Seq<Half>>,
    k: int,
    r: Half,
) -> (sum: Single)
    requires
        bidirectional::component_gives::<U>(weights, values, k, r),
    ensures
        bidirectional::mix_gives::<U>(weights, values, k, values.len(), sum),
        call_ensures(U::narrow, (sum,), r),
{
    choose|acc: Single|
        bidirectional::mix_gives::<U>(weights, values, k, values.len(), acc)
            && #[trigger] Single::narrows::<U>(acc, r)
}

} // verus!
