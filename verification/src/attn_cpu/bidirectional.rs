//! Full bidirectional multi-head attention with grouped key/value heads.
use crate::bridge::{AttentionBackend, AttentionMetadata, GpuBuffer, RunnerError};
use crate::float::{FloatUnit, Half, Single};
use core::marker::PhantomData;
use vstd::prelude::*;

verus! {

/// The sum of the products of the first `n` elements of `x` and `y`, added up from the left,
/// may come out as `r`.
pub open spec fn dot_gives<U: FloatUnit>(x: Seq<Half>, y: Seq<Half>, n: nat, r: Single) -> bool
    decreases n,
{
    if n == 0 {
        r == Single::zero()
    } else {
        exists|acc: Single, a: Single, b: Single, p: Single|
            #![trigger Single::multiplies::<U>(a, b, p), Single::adds::<U>(acc, p, r)]
            {
                &&& dot_gives::<U>(x, y, (n - 1) as nat, acc)
                &&& Single::widens::<U>(x[n - 1], a)
                &&& Single::widens::<U>(y[n - 1], b)
                &&& Single::multiplies::<U>(a, b, p)
                &&& Single::adds::<U>(acc, p, r)
            }
    }
}

/// The scaled product of a query row and a key row may come out as `r`.
pub open spec fn logit_gives<U: FloatUnit>(
    q: Seq<Half>,
    k: Seq<Half>,
    scale: Single,
    r: Single,
) -> bool {
    exists|dot: Single|
        dot_gives::<U>(q, k, q.len(), dot) && #[trigger] Single::multiplies::<U>(dot, scale, r)
}

/// The greatest of the first `n` values, from negative infinity on.
pub open spec fn greatest(s: Seq<Single>, n: nat) -> Single
    decreases n,
{
    if n == 0 {
        Single::neg_infinity()
    } else {
        greatest(s, (n - 1) as nat).max(s[n - 1])
    }
}

/// `exp(x - top)` may come out as `r`.
pub open spec fn shifted_exp_gives<U: FloatUnit>(x: Single, top: Single, r: Single) -> bool {
    exists|d: Single| Single::subtracts::<U>(x, top, d) && #[trigger] Single::exponentiates::<U>(d, r)
}

/// The sum of the first `n` values, added up from the left, may come out as `r`.
pub open spec fn sum_gives<U: FloatUnit>(s: Seq<Single>, n: nat, r: Single) -> bool
    decreases n,
{
    if n == 0 {
        r == Single::zero()
    } else {
        exists|acc: Single|
            sum_gives::<U>(s, (n - 1) as nat, acc) && #[trigger] Single::adds::<U>(acc, s[n - 1], r)
    }
}

/// The factor that normalizes weights of this sum: its inverse where it is positive, else zero.
pub open spec fn inverse_gives<U: FloatUnit>(sum: Single, r: Single) -> bool {
    if Single::zero().less(sum) {
        Single::divides::<U>(Single::one(), sum, r)
    } else {
        r == Single::zero()
    }
}

/// The softmax of `logits` may come out as `weights`.
pub open spec fn softmax_gives<U: FloatUnit>(logits: Seq<Single>, weights: Seq<Single>) -> bool {
    exists|exps: Seq<Single>, sum: Single, inv: Single|
        #![trigger sum_gives::<U>(exps, logits.len(), sum), inverse_gives::<U>(sum, inv)]
        {
            &&& exps.len() == logits.len()
            &&& weights.len() == logits.len()
            &&& forall|j: int|
                0 <= j < logits.len() ==> shifted_exp_gives::<U>(
                    logits[j],
                    greatest(logits, logits.len()),
                    #[trigger] exps[j],
                )
            &&& sum_gives::<U>(exps, logits.len(), sum)
            &&& inverse_gives::<U>(sum, inv)
            &&& forall|j: int|
                0 <= j < logits.len() ==> Single::multiplies::<U>(exps[j], inv, #[trigger] weights[j])
        }
}

/// The attention weights of one query row over all key rows may come out as `weights`.
pub open spec fn weights_give<U: FloatUnit>(
    q: Seq<Half>,
    keys: Seq<Seq<Half>>,
    scale: Single,
    weights: Seq<Single>,
) -> bool {
    exists|logits: Seq<Single>|
        {
            &&& logits.len() == keys.len()
            &&& forall|j: int|
                0 <= j < keys.len() ==> logit_gives::<U>(q, keys[j], scale, #[trigger] logits[j])
            &&& #[trigger] softmax_gives::<U>(logits, weights)
        }
}

/// Component `k` of the first `n` value rows, mixed by `weights` and added up from the left, may
/// come out as `r`.
pub open spec fn mix_gives<U: FloatUnit>(
    weights: Seq<Single>,
    values: Seq<Seq<Half>>,
    k: int,
    n: nat,
    r: Single,
) -> bool
    decreases n,
{
    if n == 0 {
        r == Single::zero()
    } else {
        exists|acc: Single, v: Single, p: Single|
            #![trigger Single::multiplies::<U>(weights[n - 1], v, p), Single::adds::<U>(acc, p, r)]
            {
                &&& mix_gives::<U>(weights, values, k, (n - 1) as nat, acc)
                &&& Single::widens::<U>(values[n - 1][k], v)
                &&& Single::multiplies::<U>(weights[n - 1], v, p)
                &&& Single::adds::<U>(acc, p, r)
            }
    }
}

/// Component `k` of an output row may come out as `r`.
pub open spec fn component_gives<U: FloatUnit>(
    weights: Seq<Single>,
    values: Seq<Seq<Half>>,
    k: int,
    r: Half,
) -> bool {
    exists|acc: Single|
        mix_gives::<U>(weights, values, k, values.len(), acc) && #[trigger] Single::narrows::<U>(acc, r)
}

/// Attention of one query row over all key and value rows of a head may come out as `out`.
pub open spec fn attends<U: FloatUnit>(
    q: Seq<Half>,
    keys: Seq<Seq<Half>>,
    values: Seq<Seq<Half>>,
    scale: Single,
    out: Seq<Half>,
) -> bool {
    exists|weights: Seq<Single>|
        {
            &&& #[trigger] weights_give::<U>(q, keys, scale, weights)
            &&& forall|k: int|
                0 <= k < out.len() ==> component_gives::<U>(weights, values, k, #[trigger] out[k])
        }
}

/// The part of row `row` that belongs to head `head`, in rows of `features` elements.
pub open spec fn head_row(data: Seq<Half>, row: int, features: int, head: int, dim: int) -> Seq<
    Half,
> {
    data.subrange(row * features + head * dim, row * features + head * dim + dim)
}

/// The part of every row that belongs to head `head`.
pub open spec fn head_rows(
    data: Seq<Half>,
    rows: nat,
    features: int,
    head: int,
    dim: int,
) -> Seq<Seq<Half>> {
    Seq::new(rows, |j: int| head_row(data, j, features, head, dim))
}

/// How many query heads share one key/value head.
pub open spec fn group_size(num_heads: nat, num_kv_heads: nat) -> nat {
    num_heads / (if num_kv_heads == 0 {
        1
    } else {
        num_kv_heads
    })
}

/// The key/value head that query head `head` reads.
pub open spec fn kv_head_of(num_heads: nat, num_kv_heads: nat, head: nat) -> nat {
    head / group_size(num_heads, num_kv_heads)
}

/// A run of `dim` elements inside row `row` of `rows` stays inside the tensor.
pub(crate) proof fn lemma_head_row_in_bounds(rows: int, row: int, heads: int, head: int, dim: int)
    requires
        0 <= row < rows,
        0 <= head,
        0 <= dim,
        0 <= heads,
        dim > 0 ==> head < heads,
    ensures
        0 <= row * (heads * dim),
        0 <= head * dim,
        head * dim + dim <= heads * dim,
        row * (heads * dim) + heads * dim <= rows * (heads * dim),
        row * (heads * dim) + head * dim + dim <= rows * (heads * dim),
{
    assert(head * dim + dim <= heads * dim) by (nonlinear_arith)
        requires
            0 <= head,
            0 <= dim,
            0 <= heads,
            dim > 0 ==> head < heads,
    ;
    assert(0 <= head * dim) by (nonlinear_arith)
        requires
            0 <= head,
            0 <= dim,
    ;
    let features = heads * dim;
    assert(0 <= row * features && row * features + features <= rows * features)
        by (nonlinear_arith)
        requires
            0 <= row < rows,
            0 <= features,
    ;
}

/// The products of two runs of elements, added up from the left.
fn dot<U: FloatUnit>(
    x: &Vec<Half>,
    x_start: usize,
    y: &Vec<Half>,
    y_start: usize,
    dim: usize,
) -> (r: Single)
    requires
        x_start + dim <= x.len(),
        y_start + dim <= y.len(),
    ensures
        dot_gives::<U>(
            x@.subrange(x_start as int, x_start + dim),
            y@.subrange(y_start as int, y_start + dim),
            dim as nat,
            r,
        ),
{
    let ghost xs = x@.subrange(x_start as int, x_start + dim);
    let ghost ys = y@.subrange(y_start as int, y_start + dim);
    let mut acc: Single = Single::zero();
    for k in 0..dim
        invariant
            x_start + dim <= x.len(),
            y_start + dim <= y.len(),
            xs == x@.subrange(x_start as int, x_start + dim),
            ys == y@.subrange(y_start as int, y_start + dim),
            dot_gives::<U>(xs, ys, k as nat, acc),
    {
        let a = U::widen(x[x_start + k]);
        let b = U::widen(y[y_start + k]);
        let p = U::times(a, b);
        let ghost before = acc;
        acc = U::plus(acc, p);
        assert(dot_gives::<U>(xs, ys, ((k + 1) - 1) as nat, before));
        assert(xs[k as int] == x@[x_start + k] && ys[k as int] == y@[y_start + k]);
        assert(Single::multiplies::<U>(a, b, p) && Single::adds::<U>(before, p, acc));
    }
    acc
}

/// The scaled products of one query row with every key row of a head.
fn logits<U: FloatUnit>(
    query: &Vec<Half>,
    q_start: usize,
    key: &Vec<Half>,
    rows: usize,
    num_kv_heads: usize,
    kv_head: usize,
    dim: usize,
    scale: Single,
) -> (r: Vec<Single>)
    requires
        q_start + dim <= query.len(),
        num_kv_heads * dim <= usize::MAX,
        key.len() == rows * (num_kv_heads * dim),
        dim > 0 ==> kv_head < num_kv_heads,
    ensures
        r@.len() == rows,
        forall|j: int|
            0 <= j < rows ==> logit_gives::<U>(
                query@.subrange(q_start as int, q_start + dim),
                head_rows(key@, rows as nat, num_kv_heads * dim, kv_head as int, dim as int)[j],
                scale,
                #[trigger] r@[j],
            ),
{
    let features: usize = num_kv_heads * dim;
    let ghost q = query@.subrange(q_start as int, q_start + dim);
    let ghost keys = head_rows(key@, rows as nat, features as int, kv_head as int, dim as int);
    let mut out: Vec<Single> = Vec::with_capacity(rows);
    for j in 0..rows
        invariant
            q_start + dim <= query.len(),
            features == num_kv_heads * dim,
            key.len() == rows * (num_kv_heads * dim),
            dim > 0 ==> kv_head < num_kv_heads,
            q == query@.subrange(q_start as int, q_start + dim),
            keys == head_rows(key@, rows as nat, features as int, kv_head as int, dim as int),
            out@.len() == j,
            forall|l: int|
                0 <= l < j ==> logit_gives::<U>(q, keys[l], scale, #[trigger] out@[l]),
    {
        proof {
            lemma_head_row_in_bounds(
                rows as int,
                j as int,
                num_kv_heads as int,
                kv_head as int,
                dim as int,
            );
        }
        let k_start: usize = j * features + kv_head * dim;
        let product = dot::<U>(query, q_start, key, k_start, dim);
        let logit = U::times(product, scale);
        assert(keys[j as int] == key@.subrange(k_start as int, k_start + dim));
        assert(Single::multiplies::<U>(product, scale, logit));
        assert(logit_gives::<U>(q, keys[j as int], scale, logit));
        out.push(logit);
    }
    out
}

/// The greatest of some values, from negative infinity on.
fn top(s: &Vec<Single>) -> (r: Single)
    ensures
        r == greatest(s@, s@.len()),
{
    let mut best: Single = Single::neg_infinity();
    for j in 0..s.len()
        invariant
            best == greatest(s@, j as nat),
    {
        best = best.max(s[j]);
    }
    best
}

/// The softmax of some logits.
fn softmax<U: FloatUnit>(logits: &Vec<Single>) -> (r: Vec<Single>)
    ensures
        softmax_gives::<U>(logits@, r@),
{
    let rows = logits.len();
    let max_logit = top(logits);
    let mut exps: Vec<Single> = Vec::with_capacity(rows);
    let mut sum: Single = Single::zero();
    for j in 0..rows
        invariant
            rows == logits@.len(),
            max_logit == greatest(logits@, logits@.len()),
            exps@.len() == j,
            forall|l: int|
                0 <= l < j ==> shifted_exp_gives::<U>(logits@[l], max_logit, #[trigger] exps@[l]),
            sum_gives::<U>(exps@, j as nat, sum),
    {
        let d = U::minus(logits[j], max_logit);
        let e = U::exponential(d);
        assert(Single::exponentiates::<U>(d, e));
        assert(shifted_exp_gives::<U>(logits@[j as int], max_logit, e));
        let ghost before = exps@;
        let ghost before_sum = sum;
        exps.push(e);
        sum = U::plus(sum, e);
        proof {
            lemma_sum_of_prefix::<U>(before, exps@, j as nat, before_sum);
            assert(sum_gives::<U>(exps@, ((j + 1) - 1) as nat, before_sum));
            assert(Single::adds::<U>(before_sum, exps@[j as int], sum));
        }
    }
    let inv = if Single::zero().lt(sum) {
        U::over(Single::one(), sum)
    } else {
        Single::zero()
    };
    assert(inverse_gives::<U>(sum, inv));
    let mut out: Vec<Single> = Vec::with_capacity(rows);
    for j in 0..rows
        invariant
            rows == exps@.len(),
            out@.len() == j,
            forall|l: int|
                0 <= l < j ==> Single::multiplies::<U>(exps@[l], inv, #[trigger] out@[l]),
    {
        let w = U::times(exps[j], inv);
        assert(Single::multiplies::<U>(exps@[j as int], inv, w));
        out.push(w);
    }
    assert(sum_gives::<U>(exps@, logits@.len(), sum));
    out
}

/// A sum only reads the values that it adds up.
proof fn lemma_sum_of_prefix<U: FloatUnit>(s: Seq<Single>, t: Seq<Single>, n: nat, r: Single)
    requires
        n <= s.len(),
        n <= t.len(),
        forall|j: int| 0 <= j < n ==> s[j] == t[j],
        sum_gives::<U>(s, n, r),
    ensures
        sum_gives::<U>(t, n, r),
    decreases n,
{
    if n > 0 {
        let acc = choose|acc: Single|
            sum_gives::<U>(s, (n - 1) as nat, acc) && #[trigger] Single::adds::<U>(
                acc,
                s[n - 1],
                r,
            );
        lemma_sum_of_prefix::<U>(s, t, (n - 1) as nat, acc);
        assert(Single::adds::<U>(acc, t[n - 1], r));
    }
}

/// One component of an output row.
fn component<U: FloatUnit>(
    weights: &Vec<Single>,
    value: &Vec<Half>,
    rows: usize,
    num_kv_heads: usize,
    kv_head: usize,
    dim: usize,
    k: usize,
) -> (r: Half)
    requires
        weights@.len() == rows,
        num_kv_heads * dim <= usize::MAX,
        value.len() == rows * (num_kv_heads * dim),
        kv_head < num_kv_heads,
        k < dim,
    ensures
        component_gives::<U>(
            weights@,
            head_rows(value@, rows as nat, num_kv_heads * dim, kv_head as int, dim as int),
            k as int,
            r,
        ),
{
    let features: usize = num_kv_heads * dim;
    let ghost values = head_rows(value@, rows as nat, features as int, kv_head as int, dim as int);
    let mut acc: Single = Single::zero();
    for j in 0..rows
        invariant
            weights@.len() == rows,
            features == num_kv_heads * dim,
            value.len() == rows * (num_kv_heads * dim),
            kv_head < num_kv_heads,
            k < dim,
            values == head_rows(value@, rows as nat, features as int, kv_head as int, dim as int),
            mix_gives::<U>(weights@, values, k as int, j as nat, acc),
    {
        proof {
            lemma_head_row_in_bounds(
                rows as int,
                j as int,
                num_kv_heads as int,
                kv_head as int,
                dim as int,
            );
        }
        let v_idx: usize = j * features + kv_head * dim + k;
        let v = U::widen(value[v_idx]);
        let p = U::times(weights[j], v);
        let ghost before = acc;
        acc = U::plus(acc, p);
        assert(values[j as int][k as int] == value@[v_idx as int]);
        assert(mix_gives::<U>(weights@, values, k as int, ((j + 1) - 1) as nat, before));
        assert(Single::multiplies::<U>(weights@[(j + 1) - 1], v, p) && Single::adds::<U>(before, p, acc));
    }
    let r = U::narrow(acc);
    assert(Single::narrows::<U>(acc, r));
    r
}

/// Attention of one query row over every row of a head.
fn attend<U: FloatUnit>(
    query: &Vec<Half>,
    q_start: usize,
    key: &Vec<Half>,
    value: &Vec<Half>,
    rows: usize,
    num_kv_heads: usize,
    kv_head: usize,
    dim: usize,
    scale: Single,
) -> (r: Vec<Half>)
    requires
        q_start + dim <= query.len(),
        num_kv_heads * dim <= usize::MAX,
        key.len() == rows * (num_kv_heads * dim),
        value.len() == rows * (num_kv_heads * dim),
        dim > 0 ==> kv_head < num_kv_heads,
    ensures
        r@.len() == dim,
        attends::<U>(
            query@.subrange(q_start as int, q_start + dim),
            head_rows(key@, rows as nat, num_kv_heads * dim, kv_head as int, dim as int),
            head_rows(value@, rows as nat, num_kv_heads * dim, kv_head as int, dim as int),
            scale,
            r@,
        ),
{
    let ghost q = query@.subrange(q_start as int, q_start + dim);
    let ghost keys = head_rows(key@, rows as nat, num_kv_heads * dim, kv_head as int, dim as int);
    let ghost values = head_rows(
        value@,
        rows as nat,
        num_kv_heads * dim,
        kv_head as int,
        dim as int,
    );
    let logits = logits::<U>(query, q_start, key, rows, num_kv_heads, kv_head, dim, scale);
    let weights = softmax::<U>(&logits);
    assert(softmax_gives::<U>(logits@, weights@));
    assert(weights_give::<U>(q, keys, scale, weights@));
    let mut out: Vec<Half> = Vec::with_capacity(dim);
    for k in 0..dim
        invariant
            weights@.len() == rows,
            num_kv_heads * dim <= usize::MAX,
            value.len() == rows * (num_kv_heads * dim),
            dim > 0 ==> kv_head < num_kv_heads,
            values == head_rows(
                value@,
                rows as nat,
                num_kv_heads * dim,
                kv_head as int,
                dim as int,
            ),
            out@.len() == k,
            forall|l: int|
                0 <= l < k ==> component_gives::<U>(weights@, values, l, #[trigger] out@[l]),
    {
        let c = component::<U>(&weights, value, rows, num_kv_heads, kv_head, dim, k);
        out.push(c);
    }
    out
}

/// Scaled dot-product attention over the full sequence: every token attends to every token.
pub struct CpuBidirectionalAttention<U> {
    num_heads: usize,
    num_kv_heads: usize,
    head_dim: usize,
    scale: Single,
    unit: PhantomData<U>,
}

/// `1 / sqrt(head_dim)` may come out as `r`.
pub open spec fn scale_gives<U: FloatUnit>(head_dim: usize, r: Single) -> bool {
    exists|d: Single, root: Single|
        #![trigger Single::roots::<U>(d, root)]
        {
            &&& Single::converts::<U>(head_dim, d)
            &&& Single::roots::<U>(d, root)
            &&& Single::divides::<U>(Single::one(), root, r)
        }
}

impl<U> CpuBidirectionalAttention<U> {
    /// The number of query heads.
    pub closed spec fn heads(&self) -> nat {
        self.num_heads as nat
    }

    /// The number of key/value heads.
    pub closed spec fn kv_heads(&self) -> nat {
        self.num_kv_heads as nat
    }

    /// The number of components of a head.
    pub closed spec fn dim(&self) -> nat {
        self.head_dim as nat
    }

    /// The factor on the products of query and key rows.
    pub closed spec fn scaling(&self) -> Single {
        self.scale
    }

    /// Every query head has a key/value head to read, unless there is nothing to read: there are
    /// at least as many query heads, and the last of them still maps to one of the
    /// `num_kv_heads`.
    pub open spec fn heads_fit(&self, rows: nat) -> bool {
        self.heads() == 0 || {
            &&& self.heads() >= self.kv_heads()
            &&& rows == 0 || self.dim() == 0 || kv_head_of(
                self.heads(),
                self.kv_heads(),
                (self.heads() - 1) as nat,
            ) < self.kv_heads()
        }
    }

    /// Rows of query, key and value that attention works on: as many rows of each as the query's
    /// first dimension says, and a key/value head for each query head.
    pub open spec fn operands_fit(
        &self,
        query: &GpuBuffer<Half>,
        key: &GpuBuffer<Half>,
        value: &GpuBuffer<Half>,
    ) -> bool {
        &&& self.heads() * self.dim() <= usize::MAX
        &&& self.kv_heads() * self.dim() <= usize::MAX
        &&& query.data@.len() == query.rows() * (self.heads() * self.dim())
        &&& key.data@.len() == query.rows() * (self.kv_heads() * self.dim())
        &&& value.data@.len() == query.rows() * (self.kv_heads() * self.dim())
        &&& self.heads_fit(query.rows())
    }
}

impl<U: FloatUnit> CpuBidirectionalAttention<U> {
    /// Attention with this many query heads and key/value heads of `head_dim` components.
    pub fn new(num_heads: usize, num_kv_heads: usize, head_dim: usize) -> (r: Self)
        ensures
            r.heads() == num_heads,
            r.kv_heads() == num_kv_heads,
            r.dim() == head_dim,
            scale_gives::<U>(head_dim, r.scaling()),
    {
        let d = U::from_usize(head_dim);
        let root = U::root(d);
        assert(Single::roots::<U>(d, root));
        let scale = U::over(Single::one(), root);
        CpuBidirectionalAttention { num_heads, num_kv_heads, head_dim, scale, unit: PhantomData }
    }

    /// How many query heads share one key/value head.
    fn group(&self) -> (r: usize)
        ensures
            r == group_size(self.heads(), self.kv_heads()),
    {
        if self.num_kv_heads == 0 {
            self.num_heads
        } else {
            self.num_heads / self.num_kv_heads
        }
    }

    /// Whether every query head has a key/value head to read in `rows` rows.
    fn every_head_fits(&self, rows: usize) -> (r: bool)
        ensures
            r == self.heads_fit(rows as nat),
    {
        if self.num_heads == 0 {
            return true;
        }
        if self.num_heads < self.num_kv_heads {
            return false;
        }
        if rows == 0 || self.head_dim == 0 {
            return true;
        }
        proof {
            lemma_kv_head_fits(self.heads(), self.kv_heads(), 0);
        }
        (self.num_heads - 1) / self.group() < self.num_kv_heads
    }

    /// The part of an output row that belongs to query head `head`: the attention of that head's
    /// part of the query row over that head's part of all key and value rows.
    pub open spec fn head_attends(
        &self,
        query: &GpuBuffer<Half>,
        key: &GpuBuffer<Half>,
        value: &GpuBuffer<Half>,
        row: int,
        head: int,
        out: Seq<Half>,
    ) -> bool {
        let dim = self.dim() as int;
        let kv_features = (self.kv_heads() * self.dim()) as int;
        let kv_head = kv_head_of(self.heads(), self.kv_heads(), head as nat) as int;
        attends::<U>(
            head_row(query.data@, row, (self.heads() * self.dim()) as int, head, dim),
            head_rows(key.data@, query.rows(), kv_features, kv_head, dim),
            head_rows(value.data@, query.rows(), kv_features, kv_head, dim),
            self.scaling(),
            out,
        )
    }

    /// What attention returns: as many rows as the query has, and in each of them, head after
    /// head, what that head attends to.
    pub open spec fn attention_gives(
        &self,
        query: &GpuBuffer<Half>,
        key: &GpuBuffer<Half>,
        value: &GpuBuffer<Half>,
        out: &GpuBuffer<Half>,
    ) -> bool {
        let features = self.heads() * self.dim();
        &&& out.shape@ == seq![query.rows() as usize, features as usize]
        &&& out.data@.len() == query.rows() * features
        &&& forall|row: int, head: int|
            #![trigger head_row(out.data@, row, features as int, head, self.dim() as int)]
            0 <= row < query.rows() && 0 <= head < self.heads() ==> self.head_attends(
                query,
                key,
                value,
                row,
                head,
                head_row(out.data@, row, features as int, head, self.dim() as int),
            )
    }
}

/// Where row `row` is filled up to head `head`, the earlier rows and heads lie before that point.
proof fn lemma_earlier_head_row(heads: int, dim: int, row: int, head: int, r: int, h: int)
    requires
        0 <= dim,
        0 <= h < heads,
        0 <= head <= heads,
        0 <= r,
        r < row || (r == row && h < head),
    ensures
        0 <= r * (heads * dim) + h * dim,
        r * (heads * dim) + h * dim + dim <= row * (heads * dim) + head * dim,
{
    lemma_head_row_in_bounds(row + 1, r, heads, h, dim);
    assert(0 <= head * dim) by (nonlinear_arith)
        requires
            0 <= head,
            0 <= dim,
    ;
    if r < row {
        lemma_head_row_in_bounds(row, r, heads, h, dim);
    } else {
        assert(h * dim + dim <= head * dim) by (nonlinear_arith)
            requires
                h < head,
                0 <= dim,
        ;
    }
}

/// The heads of a query map to key/value heads in order, so all of them fit if the last does.
proof fn lemma_kv_head_fits(heads: nat, kv_heads: nat, head: nat)
    requires
        head < heads,
        heads >= kv_heads,
    ensures
        group_size(heads, kv_heads) > 0,
        kv_head_of(heads, kv_heads, head) <= kv_head_of(heads, kv_heads, (heads - 1) as nat),
{
    let divisor = if kv_heads == 0 {
        1nat
    } else {
        kv_heads
    };
    assert(heads / divisor > 0) by {
        vstd::arithmetic::div_mod::lemma_div_non_zero(heads as int, divisor as int);
    }
    vstd::arithmetic::div_mod::lemma_div_is_ordered(
        head as int,
        heads - 1,
        group_size(heads, kv_heads) as int,
    );
}

/// Whether `data` holds exactly `rows` rows of `features` elements.
fn has_rows(data: &Vec<Half>, rows: usize, features: usize) -> (r: bool)
    ensures
        r == (data@.len() == rows * features),
{
    let len: usize = data.len();
    match rows.checked_mul(features) {
        Some(expected) => len == expected,
        None => false,
    }
}

impl<U: FloatUnit> AttentionBackend for CpuBidirectionalAttention<U> {
    open spec fn accepts(
        &self,
        query: &GpuBuffer<Half>,
        key: &GpuBuffer<Half>,
        value: &GpuBuffer<Half>,
    ) -> bool {
        self.operands_fit(query, key, value)
    }

    fn fits(
        &self,
        query: &GpuBuffer<Half>,
        key: &GpuBuffer<Half>,
        value: &GpuBuffer<Half>,
    ) -> (r: bool) {
        let rows: usize = query.num_rows();
        match (
            self.num_heads.checked_mul(self.head_dim),
            self.num_kv_heads.checked_mul(self.head_dim),
        ) {
            (Some(features), Some(kv_features)) => {
                has_rows(&query.data, rows, features) && has_rows(&key.data, rows, kv_features)
                    && has_rows(&value.data, rows, kv_features) && self.every_head_fits(rows)
            },
            _ => false,
        }
    }

    fn forward(
        &self,
        query: &GpuBuffer<Half>,
        key: &GpuBuffer<Half>,
        value: &GpuBuffer<Half>,
        metadata: &AttentionMetadata,
        layer_idx: usize,
    ) -> (r: Result<GpuBuffer<Half>, RunnerError>)
        ensures
            r matches Ok(out) && self.attention_gives(query, key, value, &out),
    {
        let rows: usize = query.num_rows();
        let features: usize = self.num_heads * self.head_dim;
        let mut out: Vec<Half> = Vec::with_capacity(query.data.len());
        assert(0 * features == 0) by (nonlinear_arith);
        for row in 0..rows
            invariant
                rows == query.rows(),
                features == self.heads() * self.dim(),
                self.operands_fit(query, key, value),
                query.data.len() == query.data@.len(),
                out@.len() == row * features,
                forall|r: int, h: int|
                    #![trigger head_row(out@, r, features as int, h, self.dim() as int)]
                    0 <= r < row && 0 <= h < self.heads() ==> self.head_attends(
                        query,
                        key,
                        value,
                        r,
                        h,
                        head_row(out@, r, features as int, h, self.dim() as int),
                    ),
        {
            assert(0 * self.dim() == 0) by (nonlinear_arith);
            for head in 0..self.num_heads
                invariant
                    rows == query.rows(),
                    row < rows,
                    features == self.heads() * self.dim(),
                    self.operands_fit(query, key, value),
                    query.data.len() == query.data@.len(),
                    out@.len() == row * features + head * self.dim(),
                    forall|r: int, h: int|
                        #![trigger head_row(out@, r, features as int, h, self.dim() as int)]
                        0 <= r && 0 <= h < self.heads() && (r < row || (r == row && h < head))
                            ==> self.head_attends(
                            query,
                            key,
                            value,
                            r,
                            h,
                            head_row(out@, r, features as int, h, self.dim() as int),
                        ),
            {
                proof {
                    lemma_kv_head_fits(self.heads(), self.kv_heads(), head as nat);
                    lemma_head_row_in_bounds(
                        rows as int,
                        row as int,
                        self.heads() as int,
                        head as int,
                        self.dim() as int,
                    );
                }
                let kv_head: usize = head / self.group();
                let q_start: usize = row * features + head * self.head_dim;
                let mut part = attend::<U>(
                    &query.data,
                    q_start,
                    &key.data,
                    &value.data,
                    rows,
                    self.num_kv_heads,
                    kv_head,
                    self.head_dim,
                    self.scale,
                );
                let ghost before = out@;
                let ghost part_view = part@;
                out.append(&mut part);
                proof {
                    let dim = self.dim() as int;
                    assert(head_row(out@, row as int, features as int, head as int, dim)
                        =~= part_view);
                    assert forall|r: int, h: int|
                        #![trigger head_row(out@, r, features as int, h, dim)]
                        0 <= r && 0 <= h < self.heads() && (r < row || (r == row && h < head + 1))
                    implies self.head_attends(
                        query,
                        key,
                        value,
                        r,
                        h,
                        head_row(out@, r, features as int, h, dim),
                    ) by {
                        if !(r == row && h == head) {
                            lemma_earlier_head_row(
                                self.heads() as int,
                                dim,
                                row as int,
                                head as int,
                                r,
                                h,
                            );
                            assert(head_row(out@, r, features as int, h, dim) =~= head_row(
                                before,
                                r,
                                features as int,
                                h,
                                dim,
                            ));
                        }
                    }
                    assert(head * dim + dim == (head + 1) * dim) by (nonlinear_arith);
                }
            }
            assert(row * features + features == (row + 1) * features) by (nonlinear_arith);
        }
        let mut shape: Vec<usize> = Vec::new();
        shape.push(rows);
        shape.push(features);
        assert(shape@ =~= seq![query.rows() as usize, features]);
        Ok(GpuBuffer::from_vec(out, shape))
    }
}

/// With a single token, softmax puts weight one on it: the output is the token's value row. Of a
/// negative zero the sign is lost.
pub proof fn law_single_token_attention_is_its_value<U: FloatUnit>(
    q: Seq<Half>,
    key: Seq<Half>,
    value: Seq<Half>,
    scale: Single,
    out: Seq<Half>,
)
    requires
        crate::float::exact_identities::<U>(),
        forall|logit: Single| #[trigger] logit_gives::<U>(q, key, scale, logit) ==> logit.finite(),
        attends::<U>(q, seq![key], seq![value], scale, out),
    ensures
        forall|k: int|
            0 <= k < out.len() && !value[k].undefined() ==> #[trigger] out[k] == (if value[k]
                == Half::neg_zero() {
                Half::zero()
            } else {
                value[k]
            }),
{
    let keys = seq![key];
    let values = seq![value];
    let weights = choose|weights: Seq<Single>|
        {
            &&& #[trigger] weights_give::<U>(q, keys, scale, weights)
            &&& forall|k: int|
                0 <= k < out.len() ==> component_gives::<U>(weights, values, k, #[trigger] out[k])
        };
    lemma_single_weight_is_one::<U>(q, key, scale, weights);
    assert forall|k: int| 0 <= k < out.len() && !value[k].undefined() implies #[trigger] out[k] == (
    if value[k] == Half::neg_zero() {
        Half::zero()
    } else {
        value[k]
    }) by {
        assert(component_gives::<U>(weights, values, k, out[k]));
        let acc = choose|acc: Single|
            mix_gives::<U>(weights, values, k, 1, acc) && #[trigger] Single::narrows::<U>(
                acc,
                out[k],
            );
        reveal_with_fuel(mix_gives, 2);
        let (zero, v, p) = choose|zero: Single, v: Single, p: Single|
            #![trigger Single::multiplies::<U>(weights[0], v, p), Single::adds::<U>(zero, p, acc)]
            {
                &&& mix_gives::<U>(weights, values, k, 0, zero)
                &&& Single::widens::<U>(values[0][k], v)
                &&& Single::multiplies::<U>(weights[0], v, p)
                &&& Single::adds::<U>(zero, p, acc)
            };
        assert(p == v);
    }
}

/// The softmax of one finite logit is one.
proof fn lemma_single_weight_is_one<U: FloatUnit>(
    q: Seq<Half>,
    key: Seq<Half>,
    scale: Single,
    weights: Seq<Single>,
)
    requires
        crate::float::exact_identities::<U>(),
        forall|logit: Single| #[trigger] logit_gives::<U>(q, key, scale, logit) ==> logit.finite(),
        weights_give::<U>(q, seq![key], scale, weights),
    ensures
        weights == seq![Single::one()],
{
    let keys = seq![key];
    let logits = choose|logits: Seq<Single>|
        {
            &&& logits.len() == keys.len()
            &&& forall|j: int|
                0 <= j < keys.len() ==> logit_gives::<U>(q, keys[j], scale, #[trigger] logits[j])
            &&& #[trigger] softmax_gives::<U>(logits, weights)
        };
    assert(logit_gives::<U>(q, keys[0], scale, logits[0]));
    let (exps, sum, inv) = choose|exps: Seq<Single>, sum: Single, inv: Single|
        #![trigger sum_gives::<U>(exps, logits.len(), sum), inverse_gives::<U>(sum, inv)]
        {
            &&& exps.len() == logits.len()
            &&& weights.len() == logits.len()
            &&& forall|j: int|
                0 <= j < logits.len() ==> shifted_exp_gives::<U>(
                    logits[j],
                    greatest(logits, logits.len()),
                    #[trigger] exps[j],
                )
            &&& sum_gives::<U>(exps, logits.len(), sum)
            &&& inverse_gives::<U>(sum, inv)
            &&& forall|j: int|
                0 <= j < logits.len() ==> Single::multiplies::<U>(
                    exps[j],
                    inv,
                    #[trigger] weights[j],
                )
        };
    reveal_with_fuel(greatest, 2);
    reveal_with_fuel(sum_gives, 2);
    assert(greatest(logits, 1) == logits[0]);
    assert(shifted_exp_gives::<U>(logits[0], logits[0], exps[0]));
    assert(exps[0] == Single::one());
    assert(sum == Single::one());
    assert(inv == Single::one());
    assert(Single::multiplies::<U>(exps[0], inv, weights[0]));
    assert(weights =~= seq![Single::one()]);
}

/// Where the query heads divide evenly among the key/value heads, every query head has one to
/// read, whatever the number of rows.
pub proof fn law_even_groups_fit<U>(attention: &CpuBidirectionalAttention<U>, rows: nat)
    requires
        attention.kv_heads() > 0,
        attention.heads() % attention.kv_heads() == 0,
    ensures
        attention.heads_fit(rows),
{
    let heads = attention.heads();
    let kv_heads = attention.kv_heads();
    if heads > 0 {
        let group = group_size(heads, kv_heads);
        vstd::arithmetic::div_mod::lemma_fundamental_div_mod(heads as int, kv_heads as int);
        assert(heads == kv_heads * group);
        assert(group > 0 && heads >= kv_heads) by (nonlinear_arith)
            requires
                heads == kv_heads * group,
                heads > 0,
                kv_heads > 0,
        ;
        let last = (heads - 1) / group as int;
        vstd::arithmetic::div_mod::lemma_fundamental_div_mod(heads - 1, group as int);
        assert(last < kv_heads) by (nonlinear_arith)
            requires
                heads == kv_heads * group,
                group > 0,
                heads - 1 == group * last + (heads - 1) % (group as int),
                0 <= (heads - 1) % (group as int),
        ;
    }
}

/// Query heads read key/value heads in blocks of equal size: head `i` of group `g` reads key/value
/// head `g`.
pub proof fn law_a_group_shares_its_kv_head(heads: nat, kv_heads: nat, g: nat, i: nat)
    requires
        i < group_size(heads, kv_heads),
    ensures
        kv_head_of(heads, kv_heads, g * group_size(heads, kv_heads) + i) == g,
{
    let group = group_size(heads, kv_heads);
    vstd::arithmetic::div_mod::lemma_fundamental_div_mod_converse(
        (g * group + i) as int,
        group as int,
        g as int,
        i as int,
    );
}

impl<U: FloatUnit> CpuBidirectionalAttention<U> {
    /// Every element of the output is a component of what one head attends to in one row: no
    /// element is left out.
    pub proof fn law_every_element_is_attended(
        &self,
        query: &GpuBuffer<Half>,
        key: &GpuBuffer<Half>,
        value: &GpuBuffer<Half>,
        out: &GpuBuffer<Half>,
        idx: int,
    ) -> (place: (int, int, int))
        requires
            self.attention_gives(query, key, value, out),
            0 <= idx < out.data@.len(),
        ensures
            ({
                let (row, head, k) = place;
                let features = (self.heads() * self.dim()) as int;
                let part = head_row(out.data@, row, features, head, self.dim() as int);
                &&& 0 <= row < query.rows()
                &&& 0 <= head < self.heads()
                &&& 0 <= k < self.dim()
                &&& idx == row * features + head * self.dim() + k
                &&& part[k] == out.data@[idx]
                &&& self.head_attends(query, key, value, row, head, part)
            }),
    {
        let dim = self.dim() as int;
        let heads = self.heads() as int;
        let features = heads * dim;
        assert(features > 0 && dim > 0) by (nonlinear_arith)
            requires
                0 <= idx < query.rows() * features,
                features == heads * dim,
                0 <= heads,
                0 <= dim,
        ;
        let row = idx / features;
        let rest = idx % features;
        vstd::arithmetic::div_mod::lemma_fundamental_div_mod(idx, features);
        assert(row < query.rows()) by (nonlinear_arith)
            requires
                idx == features * row + rest,
                0 <= rest,
                idx < query.rows() * features,
                features > 0,
        ;
        assert(0 <= row) by (nonlinear_arith)
            requires
                row == idx / features,
                0 <= idx,
                features > 0,
        ;
        let head = rest / dim;
        let k = rest % dim;
        vstd::arithmetic::div_mod::lemma_fundamental_div_mod(rest, dim);
        assert(0 <= head < heads) by (nonlinear_arith)
            requires
                rest == dim * head + k,
                0 <= k < dim,
                0 <= rest < heads * dim,
                dim > 0,
        ;
        assert(features * row == row * features && dim * head == head * dim) by (nonlinear_arith);
        lemma_head_row_in_bounds(query.rows() as int, row, heads, head, dim);
        let part = head_row(out.data@, row, features, head, dim);
        assert(part[k] == out.data@[idx]);
        (row, head, k)
    }

    /// Full-sequence attention reads of the query only the row it works on: what may come out for
    /// a row does not depend on the other query rows.
    pub proof fn law_query_rows_are_independent(
        &self,
        query: &GpuBuffer<Half>,
        other: &GpuBuffer<Half>,
        key: &GpuBuffer<Half>,
        value: &GpuBuffer<Half>,
        row: int,
        head: int,
        out: Seq<Half>,
    )
        requires
            0 <= row < query.rows(),
            0 <= head < self.heads(),
            query.rows() == other.rows(),
            query.data@.len() == query.rows() * (self.heads() * self.dim()),
            other.data@.len() == query.data@.len(),
            forall|c: int|
                #![trigger query.data@[row * (self.heads() * self.dim()) + c]]
                0 <= c < self.heads() * self.dim() ==> query.data@[row * (self.heads() * self.dim())
                    + c] == other.data@[row * (self.heads() * self.dim()) + c],
        ensures
            self.head_attends(query, key, value, row, head, out) == self.head_attends(
                other,
                key,
                value,
                row,
                head,
                out,
            ),
    {
        let dim = self.dim() as int;
        let features = self.heads() * self.dim();
        lemma_head_row_in_bounds(query.rows() as int, row, self.heads() as int, head, dim);
        let a = head_row(query.data@, row, features as int, head, dim);
        let b = head_row(other.data@, row, features as int, head, dim);
        assert forall|k: int| 0 <= k < dim implies a[k] == b[k] by {
            assert(query.data@[row * features + (head * dim + k)] == other.data@[row * features + (
            head * dim + k)]);
        }
        assert(a =~= b);
    }

    /// On a single token every head returns the value row of its key/value head. Of a negative
    /// zero the sign is lost.
    pub proof fn law_single_token_output_is_the_value(
        &self,
        query: &GpuBuffer<Half>,
        key: &GpuBuffer<Half>,
        value: &GpuBuffer<Half>,
        out: &GpuBuffer<Half>,
        head: int,
        k: int,
    )
        requires
            crate::float::exact_identities::<U>(),
            query.rows() == 1,
            self.operands_fit(query, key, value),
            self.attention_gives(query, key, value, out),
            0 <= head < self.heads(),
            0 <= k < self.dim(),
            forall|logit: Single| #[trigger]
                logit_gives::<U>(
                    head_row(
                        query.data@,
                        0,
                        (self.heads() * self.dim()) as int,
                        head,
                        self.dim() as int,
                    ),
                    head_row(
                        key.data@,
                        0,
                        (self.kv_heads() * self.dim()) as int,
                        kv_head_of(self.heads(), self.kv_heads(), head as nat) as int,
                        self.dim() as int,
                    ),
                    self.scaling(),
                    logit,
                ) ==> logit.finite(),
        ensures
            ({
                let v = value.data@[kv_head_of(self.heads(), self.kv_heads(), head as nat) * self.dim()
                    + k];
                !v.undefined() ==> out.data@[head * self.dim() + k] == (if v == Half::neg_zero() {
                    Half::zero()
                } else {
                    v
                })
            }),
    {
        let dim = self.dim() as int;
        let features = (self.heads() * self.dim()) as int;
        let kv_features = (self.kv_heads() * self.dim()) as int;
        let kv_head = kv_head_of(self.heads(), self.kv_heads(), head as nat) as int;
        lemma_kv_head_fits(self.heads(), self.kv_heads(), head as nat);
        lemma_head_row_in_bounds(1, 0, self.heads() as int, head, dim);
        lemma_head_row_in_bounds(1, 0, self.kv_heads() as int, kv_head, dim);
        let q = head_row(query.data@, 0, features, head, dim);
        let key_row = head_row(key.data@, 0, kv_features, kv_head, dim);
        let value_row = head_row(value.data@, 0, kv_features, kv_head, dim);
        let part = head_row(out.data@, 0, features, head, dim);
        assert(head_rows(key.data@, 1, kv_features, kv_head, dim) =~= seq![key_row]);
        assert(head_rows(value.data@, 1, kv_features, kv_head, dim) =~= seq![value_row]);
        assert(self.head_attends(query, key, value, 0, head, part));
        law_single_token_attention_is_its_value::<U>(
            q,
            key_row,
            value_row,
            self.scaling(),
            part,
        );
        assert(0 * features == 0 && 0 * kv_features == 0) by (nonlinear_arith);
        assert(part[k] == out.data@[head * dim + k]);
        assert(value_row[k] == value.data@[kv_head * dim + k]);
    }
}

/// One result per operands: the product of two rows.
proof fn lemma_dot_has_one_result<U: FloatUnit>(
    x: Seq<Half>,
    y: Seq<Half>,
    n: nat,
    a: Single,
    b: Single,
)
    requires
        crate::float::one_result::<U>(),
        dot_gives::<U>(x, y, n, a),
        dot_gives::<U>(x, y, n, b),
    ensures
        a == b,
    decreases n,
{
    if n > 0 {
        let (acc, v, w, p) = choose|acc: Single, v: Single, w: Single, p: Single|
            #![trigger Single::multiplies::<U>(v, w, p), Single::adds::<U>(acc, p, a)]
            {
                &&& dot_gives::<U>(x, y, (n - 1) as nat, acc)
                &&& Single::widens::<U>(x[n - 1], v)
                &&& Single::widens::<U>(y[n - 1], w)
                &&& Single::multiplies::<U>(v, w, p)
                &&& Single::adds::<U>(acc, p, a)
            };
        let (acc2, v2, w2, p2) = choose|acc: Single, v: Single, w: Single, p: Single|
            #![trigger Single::multiplies::<U>(v, w, p), Single::adds::<U>(acc, p, b)]
            {
                &&& dot_gives::<U>(x, y, (n - 1) as nat, acc)
                &&& Single::widens::<U>(x[n - 1], v)
                &&& Single::widens::<U>(y[n - 1], w)
                &&& Single::multiplies::<U>(v, w, p)
                &&& Single::adds::<U>(acc, p, b)
            };
        lemma_dot_has_one_result::<U>(x, y, (n - 1) as nat, acc, acc2);
    }
}

/// One result per operands: a scaled product.
pub(crate) proof fn lemma_logit_has_one_result<U: FloatUnit>(
    q: Seq<Half>,
    k: Seq<Half>,
    scale: Single,
    a: Single,
    b: Single,
)
    requires
        crate::float::one_result::<U>(),
        logit_gives::<U>(q, k, scale, a),
        logit_gives::<U>(q, k, scale, b),
    ensures
        a == b,
{
    let dot = choose|dot: Single|
        dot_gives::<U>(q, k, q.len(), dot) && #[trigger] Single::multiplies::<U>(dot, scale, a);
    let dot2 = choose|dot: Single|
        dot_gives::<U>(q, k, q.len(), dot) && #[trigger] Single::multiplies::<U>(dot, scale, b);
    lemma_dot_has_one_result::<U>(q, k, q.len(), dot, dot2);
}

/// One result per operands: a sum.
pub(crate) proof fn lemma_sum_has_one_result<U: FloatUnit>(s: Seq<Single>, n: nat, a: Single, b: Single)
    requires
        crate::float::one_result::<U>(),
        sum_gives::<U>(s, n, a),
        sum_gives::<U>(s, n, b),
    ensures
        a == b,
    decreases n,
{
    if n > 0 {
        let acc = choose|acc: Single|
            sum_gives::<U>(s, (n - 1) as nat, acc) && #[trigger] Single::adds::<U>(
                acc,
                s[n - 1],
                a,
            );
        let acc2 = choose|acc: Single|
            sum_gives::<U>(s, (n - 1) as nat, acc) && #[trigger] Single::adds::<U>(
                acc,
                s[n - 1],
                b,
            );
        lemma_sum_has_one_result::<U>(s, (n - 1) as nat, acc, acc2);
    }
}

/// One result per operands: the softmax.
proof fn lemma_softmax_has_one_result<U: FloatUnit>(
    logits: Seq<Single>,
    a: Seq<Single>,
    b: Seq<Single>,
)
    requires
        crate::float::one_result::<U>(),
        softmax_gives::<U>(logits, a),
        softmax_gives::<U>(logits, b),
    ensures
        a == b,
{
    let top = greatest(logits, logits.len());
    let (exps, sum, inv) = choose|exps: Seq<Single>, sum: Single, inv: Single|
        #![trigger sum_gives::<U>(exps, logits.len(), sum), inverse_gives::<U>(sum, inv)]
        {
            &&& exps.len() == logits.len()
            &&& a.len() == logits.len()
            &&& forall|j: int|
                0 <= j < logits.len() ==> shifted_exp_gives::<U>(
                    logits[j],
                    greatest(logits, logits.len()),
                    #[trigger] exps[j],
                )
            &&& sum_gives::<U>(exps, logits.len(), sum)
            &&& inverse_gives::<U>(sum, inv)
            &&& forall|j: int|
                0 <= j < logits.len() ==> Single::multiplies::<U>(exps[j], inv, #[trigger] a[j])
        };
    let (exps2, sum2, inv2) = choose|exps: Seq<Single>, sum: Single, inv: Single|
        #![trigger sum_gives::<U>(exps, logits.len(), sum), inverse_gives::<U>(sum, inv)]
        {
            &&& exps.len() == logits.len()
            &&& b.len() == logits.len()
            &&& forall|j: int|
                0 <= j < logits.len() ==> shifted_exp_gives::<U>(
                    logits[j],
                    greatest(logits, logits.len()),
                    #[trigger] exps[j],
                )
            &&& sum_gives::<U>(exps, logits.len(), sum)
            &&& inverse_gives::<U>(sum, inv)
            &&& forall|j: int|
                0 <= j < logits.len() ==> Single::multiplies::<U>(exps[j], inv, #[trigger] b[j])
        };
    assert forall|j: int| 0 <= j < logits.len() implies exps[j] == exps2[j] by {
        assert(shifted_exp_gives::<U>(logits[j], top, exps[j]));
        assert(shifted_exp_gives::<U>(logits[j], top, exps2[j]));
    }
    assert(exps =~= exps2);
    lemma_sum_has_one_result::<U>(exps, logits.len(), sum, sum2);
    assert(inv == inv2);
    assert forall|j: int| 0 <= j < logits.len() implies a[j] == b[j] by {
        assert(Single::multiplies::<U>(exps[j], inv, a[j]));
        assert(Single::multiplies::<U>(exps2[j], inv2, b[j]));
    }
    assert(a =~= b);
}

/// One result per operands: the attention weights.
proof fn lemma_weights_have_one_result<U: FloatUnit>(
    q: Seq<Half>,
    keys: Seq<Seq<Half>>,
    scale: Single,
    a: Seq<Single>,
    b: Seq<Single>,
)
    requires
        crate::float::one_result::<U>(),
        weights_give::<U>(q, keys, scale, a),
        weights_give::<U>(q, keys, scale, b),
    ensures
        a == b,
{
    let logits = choose|logits: Seq<Single>|
        {
            &&& logits.len() == keys.len()
            &&& forall|j: int|
                0 <= j < keys.len() ==> logit_gives::<U>(q, keys[j], scale, #[trigger] logits[j])
            &&& #[trigger] softmax_gives::<U>(logits, a)
        };
    let logits2 = choose|logits: Seq<Single>|
        {
            &&& logits.len() == keys.len()
            &&& forall|j: int|
                0 <= j < keys.len() ==> logit_gives::<U>(q, keys[j], scale, #[trigger] logits[j])
            &&& #[trigger] softmax_gives::<U>(logits, b)
        };
    assert forall|j: int| 0 <= j < keys.len() implies logits[j] == logits2[j] by {
        let x = logits[j];
        let y = logits2[j];
        assert(logit_gives::<U>(q, keys[j], scale, x));
        assert(logit_gives::<U>(q, keys[j], scale, y));
        lemma_logit_has_one_result::<U>(q, keys[j], scale, x, y);
    }
    assert(logits =~= logits2);
    lemma_softmax_has_one_result::<U>(logits, a, b);
}

/// One result per operands: a component mixed from the value rows, which reads of them that
/// component only.
proof fn lemma_mix_has_one_result<U: FloatUnit>(
    weights: Seq<Single>,
    values: Seq<Seq<Half>>,
    others: Seq<Seq<Half>>,
    k: int,
    n: nat,
    a: Single,
    b: Single,
)
    requires
        crate::float::one_result::<U>(),
        forall|j: int| 0 <= j < n ==> (#[trigger] values[j])[k] == others[j][k],
        mix_gives::<U>(weights, values, k, n, a),
        mix_gives::<U>(weights, others, k, n, b),
    ensures
        a == b,
    decreases n,
{
    if n > 0 {
        let (acc, v, p) = choose|acc: Single, v: Single, p: Single|
            #![trigger Single::multiplies::<U>(weights[n - 1], v, p), Single::adds::<U>(acc, p, a)]
            {
                &&& mix_gives::<U>(weights, values, k, (n - 1) as nat, acc)
                &&& Single::widens::<U>(values[n - 1][k], v)
                &&& Single::multiplies::<U>(weights[n - 1], v, p)
                &&& Single::adds::<U>(acc, p, a)
            };
        let (acc2, v2, p2) = choose|acc: Single, v: Single, p: Single|
            #![trigger Single::multiplies::<U>(weights[n - 1], v, p), Single::adds::<U>(acc, p, b)]
            {
                &&& mix_gives::<U>(weights, others, k, (n - 1) as nat, acc)
                &&& Single::widens::<U>(others[n - 1][k], v)
                &&& Single::multiplies::<U>(weights[n - 1], v, p)
                &&& Single::adds::<U>(acc, p, b)
            };
        assert(values[n - 1][k] == others[n - 1][k]);
        lemma_mix_has_one_result::<U>(weights, values, others, k, (n - 1) as nat, acc, acc2);
    }
}

/// With one result per operands, attention of a query row over key and value rows has one result.
pub proof fn law_attention_of_a_row_has_one_result<U: FloatUnit>(
    q: Seq<Half>,
    keys: Seq<Seq<Half>>,
    values: Seq<Seq<Half>>,
    scale: Single,
    a: Seq<Half>,
    b: Seq<Half>,
)
    requires
        crate::float::one_result::<U>(),
        a.len() == b.len(),
        attends::<U>(q, keys, values, scale, a),
        attends::<U>(q, keys, values, scale, b),
    ensures
        a == b,
{
    let weights = choose|weights: Seq<Single>|
        {
            &&& #[trigger] weights_give::<U>(q, keys, scale, weights)
            &&& forall|k: int|
                0 <= k < a.len() ==> component_gives::<U>(weights, values, k, #[trigger] a[k])
        };
    let weights2 = choose|weights: Seq<Single>|
        {
            &&& #[trigger] weights_give::<U>(q, keys, scale, weights)
            &&& forall|k: int|
                0 <= k < b.len() ==> component_gives::<U>(weights, values, k, #[trigger] b[k])
        };
    lemma_weights_have_one_result::<U>(q, keys, scale, weights, weights2);
    assert forall|k: int| 0 <= k < a.len() implies a[k] == b[k] by {
        let x = a[k];
        let y = b[k];
        assert(component_gives::<U>(weights, values, k, x));
        assert(component_gives::<U>(weights2, values, k, y));
        let acc = choose|acc: Single|
            mix_gives::<U>(weights, values, k, values.len(), acc) && #[trigger] Single::narrows::<U>(
                acc,
                x,
            );
        let acc2 = choose|acc: Single|
            mix_gives::<U>(weights, values, k, values.len(), acc) && #[trigger] Single::narrows::<U>(
                acc,
                y,
            );
        lemma_mix_has_one_result::<U>(weights, values, values, k, values.len(), acc, acc2);
    }
    assert(a =~= b);
}

impl<U: FloatUnit> CpuBidirectionalAttention<U> {
    /// Two calls give head `head` the same to read: the query part of row `row` of the one is that
    /// of row `other_row` of the other, and the head's key and value parts agree in all rows.
    pub open spec fn reads_the_same(
        &self,
        query: &GpuBuffer<Half>,
        key: &GpuBuffer<Half>,
        value: &GpuBuffer<Half>,
        row: int,
        other_query: &GpuBuffer<Half>,
        other_key: &GpuBuffer<Half>,
        other_value: &GpuBuffer<Half>,
        other_row: int,
        head: int,
    ) -> bool {
        let dim = self.dim() as int;
        let features = (self.heads() * self.dim()) as int;
        let kv_features = (self.kv_heads() * self.dim()) as int;
        let kv_head = kv_head_of(self.heads(), self.kv_heads(), head as nat) as int;
        &&& query.rows() == other_query.rows()
        &&& head_row(query.data@, row, features, head, dim) == head_row(
            other_query.data@,
            other_row,
            features,
            head,
            dim,
        )
        &&& forall|j: int|
            0 <= j < query.rows() ==> #[trigger] head_row(key.data@, j, kv_features, kv_head, dim)
                == head_row(other_key.data@, j, kv_features, kv_head, dim)
        &&& forall|j: int|
            0 <= j < query.rows() ==> #[trigger] head_row(value.data@, j, kv_features, kv_head, dim)
                == head_row(other_value.data@, j, kv_features, kv_head, dim)
    }

    /// A head's output depends on its own part of the query row and on its key/value head only: on
    /// no other query row, no other query head, no other key/value head, and not on the place of
    /// the query row.
    pub proof fn law_a_head_reads_its_own_parts(
        &self,
        query: &GpuBuffer<Half>,
        key: &GpuBuffer<Half>,
        value: &GpuBuffer<Half>,
        row: int,
        other_query: &GpuBuffer<Half>,
        other_key: &GpuBuffer<Half>,
        other_value: &GpuBuffer<Half>,
        other_row: int,
        head: int,
        out: Seq<Half>,
    )
        requires
            self.reads_the_same(
                query,
                key,
                value,
                row,
                other_query,
                other_key,
                other_value,
                other_row,
                head,
            ),
        ensures
            self.head_attends(query, key, value, row, head, out) == self.head_attends(
                other_query,
                other_key,
                other_value,
                other_row,
                head,
                out,
            ),
    {
        let dim = self.dim() as int;
        let kv_features = (self.kv_heads() * self.dim()) as int;
        let kv_head = kv_head_of(self.heads(), self.kv_heads(), head as nat) as int;
        assert(head_rows(key.data@, query.rows(), kv_features, kv_head, dim) =~= head_rows(
            other_key.data@,
            query.rows(),
            kv_features,
            kv_head,
            dim,
        ));
        assert(head_rows(value.data@, query.rows(), kv_features, kv_head, dim) =~= head_rows(
            other_value.data@,
            query.rows(),
            kv_features,
            kv_head,
            dim,
        ));
    }

    /// With one result per operands, two calls that give a head the same to read return the same
    /// bits for it. So output rows follow query rows, and nothing else of the operands matters.
    pub proof fn law_a_head_that_reads_the_same_returns_the_same(
        &self,
        query: &GpuBuffer<Half>,
        key: &GpuBuffer<Half>,
        value: &GpuBuffer<Half>,
        row: int,
        out: &GpuBuffer<Half>,
        other_query: &GpuBuffer<Half>,
        other_key: &GpuBuffer<Half>,
        other_value: &GpuBuffer<Half>,
        other_row: int,
        other_out: &GpuBuffer<Half>,
        head: int,
    )
        requires
            crate::float::one_result::<U>(),
            self.attention_gives(query, key, value, out),
            self.attention_gives(other_query, other_key, other_value, other_out),
            0 <= head < self.heads(),
            0 <= row < query.rows(),
            0 <= other_row < other_query.rows(),
            self.reads_the_same(
                query,
                key,
                value,
                row,
                other_query,
                other_key,
                other_value,
                other_row,
                head,
            ),
        ensures
            head_row(
                out.data@,
                row,
                (self.heads() * self.dim()) as int,
                head,
                self.dim() as int,
            ) == head_row(
                other_out.data@,
                other_row,
                (self.heads() * self.dim()) as int,
                head,
                self.dim() as int,
            ),
    {
        let dim = self.dim() as int;
        let features = (self.heads() * self.dim()) as int;
        let kv_features = (self.kv_heads() * self.dim()) as int;
        let kv_head = kv_head_of(self.heads(), self.kv_heads(), head as nat) as int;
        let a = head_row(out.data@, row, features, head, dim);
        let b = head_row(other_out.data@, other_row, features, head, dim);
        lemma_head_row_in_bounds(query.rows() as int, row, self.heads() as int, head, dim);
        lemma_head_row_in_bounds(
            other_query.rows() as int,
            other_row,
            self.heads() as int,
            head,
            dim,
        );
        self.law_a_head_reads_its_own_parts(
            query,
            key,
            value,
            row,
            other_query,
            other_key,
            other_value,
            other_row,
            head,
            b,
        );
        law_attention_of_a_row_has_one_result::<U>(
            head_row(query.data@, row, features, head, dim),
            head_rows(key.data@, query.rows(), kv_features, kv_head, dim),
            head_rows(value.data@, query.rows(), kv_features, kv_head, dim),
            self.scaling(),
            a,
            b,
        );
    }

    /// With one result per operands, attention has one result, bit for bit.
    pub proof fn law_attention_has_one_result(
        &self,
        query: &GpuBuffer<Half>,
        key: &GpuBuffer<Half>,
        value: &GpuBuffer<Half>,
        out: &GpuBuffer<Half>,
        other_query: &GpuBuffer<Half>,
        other_key: &GpuBuffer<Half>,
        other_value: &GpuBuffer<Half>,
        other_out: &GpuBuffer<Half>,
    )
        requires
            crate::float::one_result::<U>(),
            query@ == other_query@,
            key@ == other_key@,
            value@ == other_value@,
            self.attention_gives(query, key, value, out),
            self.attention_gives(other_query, other_key, other_value, other_out),
        ensures
            out@ == other_out@,
    {
        let dim = self.dim() as int;
        let features = (self.heads() * self.dim()) as int;
        assert forall|idx: int| 0 <= idx < out.data@.len() implies out.data@[idx]
            == other_out.data@[idx] by {
            let (row, head, k) = self.law_every_element_is_attended(query, key, value, out, idx);
            self.law_a_head_that_reads_the_same_returns_the_same(
                query,
                key,
                value,
                row,
                out,
                other_query,
                other_key,
                other_value,
                row,
                other_out,
                head,
            );
            lemma_head_row_in_bounds(query.rows() as int, row, self.heads() as int, head, dim);
            assert(head_row(out.data@, row, features, head, dim)[k] == head_row(
                other_out.data@,
                row,
                features,
                head,
                dim,
            )[k]);
        }
        assert(out.data@ =~= other_out.data@);
    }

    /// The metadata and the layer index have no influence on attention: whatever they are, two
    /// calls on the same operands return the same tensor.
    pub proof fn law_metadata_and_layer_do_not_matter(
        &self,
        query: &GpuBuffer<Half>,
        key: &GpuBuffer<Half>,
        value: &GpuBuffer<Half>,
        metadata: &AttentionMetadata,
        layer_idx: usize,
        r: Result<GpuBuffer<Half>, RunnerError>,
        other_metadata: &AttentionMetadata,
        other_layer_idx: usize,
        other: Result<GpuBuffer<Half>, RunnerError>,
    )
        requires
            crate::float::one_result::<U>(),
            self.operands_fit(query, key, value),
            call_ensures(
                CpuBidirectionalAttention::<U>::forward,
                (self, query, key, value, metadata, layer_idx),
                r,
            ),
            call_ensures(
                CpuBidirectionalAttention::<U>::forward,
                (self, query, key, value, other_metadata, other_layer_idx),
                other,
            ),
        ensures
            r is Ok,
            other is Ok,
            r->Ok_0@ == other->Ok_0@,
    {
        self.law_attention_has_one_result(
            query,
            key,
            value,
            &r->Ok_0,
            query,
            key,
            value,
            &other->Ok_0,
        );
    }
}

/// Grouped heads work as if each key/value head were repeated for the query heads of its group: what
/// may come out for a head is what may come out with as many key/value heads as query heads.
pub proof fn law_grouped_heads_are_repeated_heads<U: FloatUnit>(
    grouped: &CpuBidirectionalAttention<U>,
    full: &CpuBidirectionalAttention<U>,
    query: &GpuBuffer<Half>,
    key: &GpuBuffer<Half>,
    value: &GpuBuffer<Half>,
    repeated_key: &GpuBuffer<Half>,
    repeated_value: &GpuBuffer<Half>,
    row: int,
    head: int,
    out: Seq<Half>,
)
    requires
        full.heads() == grouped.heads(),
        full.kv_heads() == grouped.heads(),
        full.dim() == grouped.dim(),
        full.scaling() == grouped.scaling(),
        0 <= head < grouped.heads(),
        forall|j: int|
            0 <= j < query.rows() ==> #[trigger] head_row(
                repeated_key.data@,
                j,
                (grouped.heads() * grouped.dim()) as int,
                head,
                grouped.dim() as int,
            ) == head_row(
                key.data@,
                j,
                (grouped.kv_heads() * grouped.dim()) as int,
                kv_head_of(grouped.heads(), grouped.kv_heads(), head as nat) as int,
                grouped.dim() as int,
            ),
        forall|j: int|
            0 <= j < query.rows() ==> #[trigger] head_row(
                repeated_value.data@,
                j,
                (grouped.heads() * grouped.dim()) as int,
                head,
                grouped.dim() as int,
            ) == head_row(
                value.data@,
                j,
                (grouped.kv_heads() * grouped.dim()) as int,
                kv_head_of(grouped.heads(), grouped.kv_heads(), head as nat) as int,
                grouped.dim() as int,
            ),
    ensures
        full.head_attends(query, repeated_key, repeated_value, row, head, out)
            == grouped.head_attends(query, key, value, row, head, out),
{
    let dim = grouped.dim() as int;
    let features = (grouped.heads() * grouped.dim()) as int;
    let kv_features = (grouped.kv_heads() * grouped.dim()) as int;
    let kv_head = kv_head_of(grouped.heads(), grouped.kv_heads(), head as nat) as int;
    vstd::arithmetic::div_mod::lemma_div_by_self(grouped.heads() as int);
    assert(group_size(full.heads(), full.kv_heads()) == 1);
    vstd::arithmetic::div_mod::lemma_div_basics(head);
    assert(kv_head_of(full.heads(), full.kv_heads(), head as nat) == head);
    assert(head_rows(repeated_key.data@, query.rows(), features, head, dim) =~= head_rows(
        key.data@,
        query.rows(),
        kv_features,
        kv_head,
        dim,
    ));
    assert(head_rows(repeated_value.data@, query.rows(), features, head, dim) =~= head_rows(
        value.data@,
        query.rows(),
        kv_features,
        kv_head,
        dim,
    ));
}

/// A row of one component, padded to four by zeros.
pub open spec fn padded_row(x: Seq<Half>, y: Seq<Half>) -> bool {
    &&& x.len() == 1
    &&& y.len() == 4
    &&& y[0] == x[0]
    &&& y[1] == Half::zero()
    &&& y[2] == Half::zero()
    &&& y[3] == Half::zero()
}

/// A row of one component, doubled and padded to four by zeros.
pub open spec fn doubled_row(x: Seq<Half>, y: Seq<Half>) -> bool {
    &&& x.len() == 1
    &&& y.len() == 4
    &&& y[0].is_twice(x[0])
    &&& y[1] == Half::zero()
    &&& y[2] == Half::zero()
    &&& y[3] == Half::zero()
}

/// The product of a query row, doubled and padded, with a padded key row is twice that of the plain
/// rows.
proof fn lemma_padded_dot_doubles<U: FloatUnit>(
    q: Seq<Half>,
    k: Seq<Half>,
    q4: Seq<Half>,
    k4: Seq<Half>,
    a: Single,
    b: Single,
)
    requires
        crate::float::one_result::<U>(),
        crate::float::exact_identities::<U>(),
        crate::float::padding_is_exact::<U>(),
        doubled_row(q, q4),
        padded_row(k, k4),
        q[0].finite(),
        k[0].finite(),
        dot_gives::<U>(q, k, 1, a),
        dot_gives::<U>(q4, k4, 4, b),
    ensures
        a.finite(),
        b.is_twice(a),
{
    lemma_dot_of_padding::<U>(q4, k4, 4, b);
    reveal_with_fuel(dot_gives, 2);
    let (z, x, y, p) = choose|acc: Single, x: Single, y: Single, p: Single|
        #![trigger Single::multiplies::<U>(x, y, p), Single::adds::<U>(acc, p, a)]
        {
            &&& dot_gives::<U>(q, k, 0, acc)
            &&& Single::widens::<U>(q[0], x)
            &&& Single::widens::<U>(k[0], y)
            &&& Single::multiplies::<U>(x, y, p)
            &&& Single::adds::<U>(acc, p, a)
        };
    let (x4, y4, p4) = choose|x: Single, y: Single, p: Single|
        #![trigger Single::multiplies::<U>(x, y, p)]
        {
            &&& Single::widens::<U>(q4[0], x)
            &&& Single::widens::<U>(k4[0], y)
            &&& Single::multiplies::<U>(x, y, p)
            &&& padding_sums_to(p, b)
        };
    assert(y == y4);
    assert(x4.is_twice(x));
    assert(p4.is_twice(p));
    assert(p.finite() && p4.finite());
}

/// Adding zeros to a value from a zero on: `p` itself, or positive zero. Nothing is said of a value
/// that is not a number.
spec fn padding_sums_to(p: Single, r: Single) -> bool {
    !p.undefined() ==> r == (if p.rank() == 0 {
        Single::zero()
    } else {
        p
    })
}

/// Of a padded product only the first component counts.
proof fn lemma_dot_of_padding<U: FloatUnit>(q4: Seq<Half>, k4: Seq<Half>, n: nat, r: Single)
    requires
        1 <= n <= 4,
        crate::float::exact_identities::<U>(),
        crate::float::padding_is_exact::<U>(),
        forall|i: int| 1 <= i < 4 ==> #[trigger] q4[i] == Half::zero(),
        forall|i: int| 1 <= i < 4 ==> #[trigger] k4[i] == Half::zero(),
        dot_gives::<U>(q4, k4, n, r),
    ensures
        exists|x: Single, y: Single, p: Single|
            #![trigger Single::multiplies::<U>(x, y, p)]
            {
                &&& Single::widens::<U>(q4[0], x)
                &&& Single::widens::<U>(k4[0], y)
                &&& Single::multiplies::<U>(x, y, p)
                &&& padding_sums_to(p, r)
            },
    decreases n,
{
    let (acc, x, y, p) = choose|acc: Single, x: Single, y: Single, p: Single|
        #![trigger Single::multiplies::<U>(x, y, p), Single::adds::<U>(acc, p, r)]
        {
            &&& dot_gives::<U>(q4, k4, (n - 1) as nat, acc)
            &&& Single::widens::<U>(q4[n - 1], x)
            &&& Single::widens::<U>(k4[n - 1], y)
            &&& Single::multiplies::<U>(x, y, p)
            &&& Single::adds::<U>(acc, p, r)
        };
    if n == 1 {
        assert(acc == Single::zero());
        assert(padding_sums_to(p, r));
    } else {
        lemma_dot_of_padding::<U>(q4, k4, (n - 1) as nat, acc);
        let (x1, y1, p1) = choose|x: Single, y: Single, p: Single|
            #![trigger Single::multiplies::<U>(x, y, p)]
            {
                &&& Single::widens::<U>(q4[0], x)
                &&& Single::widens::<U>(k4[0], y)
                &&& Single::multiplies::<U>(x, y, p)
                &&& padding_sums_to(p, acc)
            };
        assert(q4[n - 1] == Half::zero() && k4[n - 1] == Half::zero());
        assert(x == Single::zero() && y == Single::zero());
        assert(p == Single::zero());
        assert(padding_sums_to(p1, r));
    }
}

/// The scale of one component is one, that of four is a half.
proof fn lemma_scales<U: FloatUnit>(one: Single, four: Single)
    requires
        crate::float::exact_identities::<U>(),
        crate::float::padding_is_exact::<U>(),
        scale_gives::<U>(1, one),
        scale_gives::<U>(4, four),
    ensures
        one == Single::one(),
        four == (Single { bits: 0x3f00_0000 }),
{
}

/// Doubling the query makes up for the scale of four components: the weights are the same.
proof fn lemma_padded_weights<U: FloatUnit>(
    q: Seq<Half>,
    keys: Seq<Seq<Half>>,
    scale: Single,
    a: Seq<Single>,
    q4: Seq<Half>,
    keys4: Seq<Seq<Half>>,
    scale4: Single,
    b: Seq<Single>,
)
    requires
        crate::float::one_result::<U>(),
        crate::float::exact_identities::<U>(),
        crate::float::exact_at_zero::<U>(),
        crate::float::padding_is_exact::<U>(),
        scale_gives::<U>(1, scale),
        scale_gives::<U>(4, scale4),
        doubled_row(q, q4),
        q[0].finite(),
        keys.len() == keys4.len(),
        forall|j: int|
            #![trigger keys[j]]
            0 <= j < keys.len() ==> padded_row(keys[j], keys4[j]) && keys[j][0].finite(),
        weights_give::<U>(q, keys, scale, a),
        weights_give::<U>(q4, keys4, scale4, b),
    ensures
        a == b,
{
    lemma_scales::<U>(scale, scale4);
    let logits = choose|logits: Seq<Single>|
        {
            &&& logits.len() == keys.len()
            &&& forall|j: int|
                0 <= j < keys.len() ==> logit_gives::<U>(q, keys[j], scale, #[trigger] logits[j])
            &&& #[trigger] softmax_gives::<U>(logits, a)
        };
    let logits4 = choose|logits: Seq<Single>|
        {
            &&& logits.len() == keys4.len()
            &&& forall|j: int|
                0 <= j < keys4.len() ==> logit_gives::<U>(
                    q4,
                    keys4[j],
                    scale4,
                    #[trigger] logits[j],
                )
            &&& #[trigger] softmax_gives::<U>(logits, b)
        };
    assert forall|j: int| 0 <= j < keys.len() implies logits[j] == logits4[j] by {
        let x = logits[j];
        let y = logits4[j];
        assert(logit_gives::<U>(q, keys[j], scale, x));
        assert(logit_gives::<U>(q4, keys4[j], scale4, y));
        let dot = choose|dot: Single|
            dot_gives::<U>(q, keys[j], q.len(), dot) && #[trigger] Single::multiplies::<U>(
                dot,
                scale,
                x,
            );
        let dot4 = choose|dot: Single|
            dot_gives::<U>(q4, keys4[j], q4.len(), dot) && #[trigger] Single::multiplies::<U>(
                dot,
                scale4,
                y,
            );
        lemma_padded_dot_doubles::<U>(q, keys[j], q4, keys4[j], dot, dot4);
        assert(x == dot);
        assert(y == dot);
    }
    assert(logits =~= logits4);
    lemma_softmax_has_one_result::<U>(logits, a, b);
}

/// Finite weights mix zeros to zero.
proof fn lemma_mix_of_zeros<U: FloatUnit>(
    weights: Seq<Single>,
    values: Seq<Seq<Half>>,
    k: int,
    n: nat,
    r: Single,
)
    requires
        crate::float::exact_identities::<U>(),
        crate::float::exact_at_zero::<U>(),
        crate::float::padding_is_exact::<U>(),
        forall|j: int| 0 <= j < n ==> (#[trigger] weights[j]).finite(),
        forall|j: int| 0 <= j < n ==> (#[trigger] values[j])[k] == Half::zero(),
        mix_gives::<U>(weights, values, k, n, r),
    ensures
        r == Single::zero(),
    decreases n,
{
    if n > 0 {
        let (acc, v, p) = choose|acc: Single, v: Single, p: Single|
            #![trigger Single::multiplies::<U>(weights[n - 1], v, p), Single::adds::<U>(acc, p, r)]
            {
                &&& mix_gives::<U>(weights, values, k, (n - 1) as nat, acc)
                &&& Single::widens::<U>(values[n - 1][k], v)
                &&& Single::multiplies::<U>(weights[n - 1], v, p)
                &&& Single::adds::<U>(acc, p, r)
            };
        lemma_mix_of_zeros::<U>(weights, values, k, (n - 1) as nat, acc);
        assert(values[n - 1][k] == Half::zero());
        assert(v == Single::zero());
        assert(weights[n - 1].finite());
        assert(p.rank() == 0 && p.finite());
    }
}

/// The logits are scaled by the inverse square root of the head size: a query row of one component,
/// doubled and padded to four by zeros, over key and value rows padded alike, gives the same
/// component and three zeros. The attention weights have to be finite.
pub proof fn law_scale_makes_up_for_the_head_size<U: FloatUnit>(
    q: Seq<Half>,
    keys: Seq<Seq<Half>>,
    values: Seq<Seq<Half>>,
    scale: Single,
    out: Seq<Half>,
    q4: Seq<Half>,
    keys4: Seq<Seq<Half>>,
    values4: Seq<Seq<Half>>,
    scale4: Single,
    out4: Seq<Half>,
)
    requires
        crate::float::one_result::<U>(),
        crate::float::exact_identities::<U>(),
        crate::float::exact_at_zero::<U>(),
        crate::float::padding_is_exact::<U>(),
        scale_gives::<U>(1, scale),
        scale_gives::<U>(4, scale4),
        doubled_row(q, q4),
        q[0].finite(),
        keys.len() == values.len(),
        keys4.len() == keys.len(),
        values4.len() == values.len(),
        forall|j: int|
            #![trigger keys[j]]
            0 <= j < keys.len() ==> padded_row(keys[j], keys4[j]) && keys[j][0].finite(),
        forall|j: int|
            #![trigger values[j]]
            #![trigger values4[j]]
            0 <= j < values.len() ==> padded_row(values[j], values4[j]),
        forall|weights: Seq<Single>, j: int|
            #![trigger weights_give::<U>(q, keys, scale, weights), weights[j]]
            weights_give::<U>(q, keys, scale, weights) && 0 <= j < keys.len()
                ==> weights[j].finite(),
        out.len() == 1,
        out4.len() == 4,
        attends::<U>(q, keys, values, scale, out),
        attends::<U>(q4, keys4, values4, scale4, out4),
    ensures
        padded_row(out, out4),
{
    let weights = choose|weights: Seq<Single>|
        {
            &&& #[trigger] weights_give::<U>(q, keys, scale, weights)
            &&& forall|k: int|
                0 <= k < out.len() ==> component_gives::<U>(weights, values, k, #[trigger] out[k])
        };
    let weights4 = choose|weights: Seq<Single>|
        {
            &&& #[trigger] weights_give::<U>(q4, keys4, scale4, weights)
            &&& forall|k: int|
                0 <= k < out4.len() ==> component_gives::<U>(
                    weights,
                    values4,
                    k,
                    #[trigger] out4[k],
                )
        };
    lemma_padded_weights::<U>(q, keys, scale, weights, q4, keys4, scale4, weights4);
    let n = values.len();
    let x = out[0];
    let y = out4[0];
    assert(component_gives::<U>(weights, values, 0, x));
    assert(component_gives::<U>(weights, values4, 0, y));
    let acc = choose|acc: Single|
        mix_gives::<U>(weights, values, 0, n, acc) && #[trigger] Single::narrows::<U>(acc, x);
    let acc4 = choose|acc: Single|
        mix_gives::<U>(weights, values4, 0, n, acc) && #[trigger] Single::narrows::<U>(acc, y);
    lemma_mix_has_one_result::<U>(weights, values, values4, 0, n, acc, acc4);
    assert forall|k: int| 1 <= k < 4 implies #[trigger] out4[k] == Half::zero() by {
        let z = out4[k];
        assert(component_gives::<U>(weights, values4, k, z));
        let acc = choose|acc: Single|
            mix_gives::<U>(weights, values4, k, n, acc) && #[trigger] Single::narrows::<U>(acc, z);
        assert forall|j: int| 0 <= j < n implies (#[trigger] values4[j])[k] == Half::zero() by {
            assert(padded_row(values[j], values4[j]));
        }
        lemma_mix_of_zeros::<U>(weights, values4, k, n, acc);
    }
}

/// Each element of `x`, one per head, padded to a head of four by zeros.
pub open spec fn padded_heads(x: Seq<Half>, y: Seq<Half>) -> bool {
    &&& y.len() == 4 * x.len()
    &&& forall|i: int|
        #![trigger x[i]]
        0 <= i < x.len() ==> {
            &&& y[4 * i] == x[i]
            &&& y[4 * i + 1] == Half::zero()
            &&& y[4 * i + 2] == Half::zero()
            &&& y[4 * i + 3] == Half::zero()
        }
}

/// Each element of `x`, one per head, doubled and padded to a head of four by zeros.
pub open spec fn doubled_heads(x: Seq<Half>, y: Seq<Half>) -> bool {
    &&& y.len() == 4 * x.len()
    &&& forall|i: int|
        #![trigger x[i]]
        0 <= i < x.len() ==> {
            &&& y[4 * i].is_twice(x[i])
            &&& y[4 * i + 1] == Half::zero()
            &&& y[4 * i + 2] == Half::zero()
            &&& y[4 * i + 3] == Half::zero()
        }
}

/// Where the rows of heads of one and of four components start.
proof fn lemma_padded_start(rows: int, row: int, heads: int, head: int)
    requires
        0 <= row < rows,
        0 <= head < heads,
    ensures
        0 <= row * heads + head < rows * heads,
        row * (heads * 1) + head * 1 == row * heads + head,
        row * (heads * 4) + head * 4 == 4 * (row * heads + head),
{
    assert(0 <= row * heads + head < rows * heads) by (nonlinear_arith)
        requires
            0 <= row < rows,
            0 <= head < heads,
    ;
    assert(row * (heads * 4) + head * 4 == 4 * (row * heads + head)) by (nonlinear_arith);
}

/// With heads of four components, doubled queries and zeros for padding, attention returns what it
/// returns with heads of one component, padded alike: doubling the query cancels the factor of one
/// half that four components have. The attention weights have to be finite.
pub proof fn law_four_components_with_doubled_queries<U: FloatUnit>(
    one: &CpuBidirectionalAttention<U>,
    query: &GpuBuffer<Half>,
    key: &GpuBuffer<Half>,
    value: &GpuBuffer<Half>,
    out: &GpuBuffer<Half>,
    four: &CpuBidirectionalAttention<U>,
    query4: &GpuBuffer<Half>,
    key4: &GpuBuffer<Half>,
    value4: &GpuBuffer<Half>,
    out4: &GpuBuffer<Half>,
)
    requires
        crate::float::one_result::<U>(),
        crate::float::exact_identities::<U>(),
        crate::float::exact_at_zero::<U>(),
        crate::float::padding_is_exact::<U>(),
        one.dim() == 1,
        four.dim() == 4,
        one.heads() == four.heads(),
        one.kv_heads() == four.kv_heads(),
        scale_gives::<U>(1, one.scaling()),
        scale_gives::<U>(4, four.scaling()),
        query.rows() == query4.rows(),
        one.operands_fit(query, key, value),
        doubled_heads(query.data@, query4.data@),
        padded_heads(key.data@, key4.data@),
        padded_heads(value.data@, value4.data@),
        query.finite_valued(),
        key.finite_valued(),
        one.weights_are_finite(query, key),
        one.attention_gives(query, key, value, out),
        four.attention_gives(query4, key4, value4, out4),
    ensures
        padded_heads(out.data@, out4.data@),
{
    let heads = one.heads() as int;
    let kv_heads = one.kv_heads() as int;
    let rows = query.rows();
    assert(heads * 4 * rows == 4 * (rows * (heads * 1))) by (nonlinear_arith);
    assert(rows * (heads * 4) == heads * 4 * rows) by (nonlinear_arith);
    assert(kv_heads * 4 * rows == 4 * (rows * (kv_heads * 1))) by (nonlinear_arith);
    assert forall|idx: int| #![trigger out.data@[idx]] 0 <= idx < out.data@.len() implies {
        &&& out4.data@[4 * idx] == out.data@[idx]
        &&& out4.data@[4 * idx + 1] == Half::zero()
        &&& out4.data@[4 * idx + 2] == Half::zero()
        &&& out4.data@[4 * idx + 3] == Half::zero()
    } by {
        let (row, head, k) = one.law_every_element_is_attended(query, key, value, out, idx);
        lemma_padded_start(rows as int, row, heads, head);
        assert(idx == row * heads + head);
        lemma_kv_head_fits(one.heads(), one.kv_heads(), head as nat);
        let kv_head = kv_head_of(one.heads(), one.kv_heads(), head as nat) as int;
        let q = head_row(query.data@, row, heads * 1, head, 1);
        let q4 = head_row(query4.data@, row, heads * 4, head, 4);
        let keys = head_rows(key.data@, rows, kv_heads * 1, kv_head, 1);
        let keys4 = head_rows(key4.data@, rows, kv_heads * 4, kv_head, 4);
        let values = head_rows(value.data@, rows, kv_heads * 1, kv_head, 1);
        let values4 = head_rows(value4.data@, rows, kv_heads * 4, kv_head, 4);
        let part = head_row(out.data@, row, heads * 1, head, 1);
        let part4 = head_row(out4.data@, row, heads * 4, head, 4);
        assert(query.data@[idx].finite());
        assert(doubled_row(q, q4));
        assert forall|j: int| #![trigger keys[j]] 0 <= j < rows implies padded_row(
            keys[j],
            keys4[j],
        ) && keys[j][0].finite() by {
            lemma_padded_start(rows as int, j, kv_heads, kv_head);
            let at = j * kv_heads + kv_head;
            assert(key.data@[at].finite());
            assert(keys[j][0] == key.data@[at]);
        }
        assert forall|j: int| #![trigger values[j]] #![trigger values4[j]] 0 <= j < rows implies padded_row(
            values[j],
            values4[j],
        ) by {
            lemma_padded_start(rows as int, j, kv_heads, kv_head);
            let at = j * kv_heads + kv_head;
            assert(values[j][0] == value.data@[at]);
        }
        assert(one.head_attends(query, key, value, row, head, part));
        assert(four.head_attends(query4, key4, value4, row, head, part4));
        law_scale_makes_up_for_the_head_size::<U>(
            q,
            keys,
            values,
            one.scaling(),
            part,
            q4,
            keys4,
            values4,
            four.scaling(),
            part4,
        );
        assert(part[0] == out.data@[idx]);
        assert(part4[0] == out4.data@[4 * idx]);
        assert(part4[1] == out4.data@[4 * idx + 1]);
        assert(part4[2] == out4.data@[4 * idx + 2]);
        assert(part4[3] == out4.data@[4 * idx + 3]);
    }
}

impl<U: FloatUnit> CpuBidirectionalAttention<U> {
    /// The attention weights of every query row and head come out finite.
    pub open spec fn weights_are_finite(
        &self,
        query: &GpuBuffer<Half>,
        key: &GpuBuffer<Half>,
    ) -> bool {
        let dim = self.dim() as int;
        let kv_features = (self.kv_heads() * self.dim()) as int;
        forall|row: int, head: int, weights: Seq<Single>, j: int|
            #![trigger weights_give::<U>(head_row(query.data@, row, (self.heads() * self.dim()) as int, head, dim), head_rows(key.data@, query.rows(), kv_features, kv_head_of(self.heads(), self.kv_heads(), head as nat) as int, dim), self.scaling(), weights), weights[j]]
            0 <= row < query.rows() && 0 <= head < self.heads() && 0 <= j < query.rows()
                && weights_give::<U>(
                head_row(query.data@, row, (self.heads() * self.dim()) as int, head, dim),
                head_rows(
                    key.data@,
                    query.rows(),
                    kv_features,
                    kv_head_of(self.heads(), self.kv_heads(), head as nat) as int,
                    dim,
                ),
                self.scaling(),
                weights,
            ) ==> weights[j].finite()
    }
}

} // verus!
