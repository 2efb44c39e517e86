//! What the Llama architectures share: tensor names, the tensors of a layer, and how they are
//! looked up.
use crate::bridge::{GpuBuffer, ModelWeights};
use crate::float::Half;
use vstd::prelude::*;

verus! {

/// The tensor of this name, or zeros of the given dimensions where there is none.
pub open spec fn weight_or_zeros(
    weights: Map<Seq<char>, crate::bridge::Tensor<Half>>,
    name: Seq<char>,
    shape: Seq<usize>,
) -> crate::bridge::Tensor<Half> {
    if weights.contains_key(name) {
        weights[name]
    } else {
        crate::bridge::zero_tensor(shape)
    }
}

/// A tensor can be had for this name: it is there, or zeros of these dimensions can be made.
pub open spec fn obtainable(
    weights: Map<Seq<char>, crate::bridge::Tensor<Half>>,
    name: Seq<char>,
    shape: Seq<usize>,
) -> bool {
    weights.contains_key(name) || crate::bridge::element_count(shape) <= usize::MAX
}

/// The tensor of this name, or zeros of the given one or two dimensions where there is none.
pub fn get_or_zeros(weights: &ModelWeights, name: &str, shape: &[usize]) -> (r: GpuBuffer<Half>)
    requires
        1 <= shape@.len() <= 2,
        obtainable(weights@, name@, shape@),
    ensures
        r@ == weight_or_zeros(weights@, name@, shape@),
{
    match weights.get_as_buffer(name) {
        Ok(tensor) => tensor,
        Err(_) => {
            proof {
                lemma_short_shape_countable(shape@);
            }
            GpuBuffer::zeros(shape)
        },
    }
}

/// Whether a tensor of one or two dimensions can be had for this name.
pub fn is_obtainable(weights: &ModelWeights, name: &str, shape: &[usize]) -> (r: bool)
    requires
        1 <= shape@.len() <= 2,
    ensures
        r == obtainable(weights@, name@, shape@),
{
    proof {
        reveal_with_fuel(crate::bridge::element_count, 3);
    }
    let counted: bool = shape.len() == 1 || shape[0].checked_mul(shape[1]).is_some();
    counted || weights.get_as_buffer(name).is_ok()
}

/// With one or two dimensions nothing is multiplied on the way that does not fit in the end.
proof fn lemma_short_shape_countable(shape: Seq<usize>)
    requires
        1 <= shape.len() <= 2,
        crate::bridge::element_count(shape) <= usize::MAX,
    ensures
        crate::bridge::countable(shape),
{
    reveal_with_fuel(crate::bridge::element_count, 3);
    assert forall|n: int| 0 <= n <= shape.len() implies crate::bridge::element_count(#[trigger] shape.take(n))
        <= usize::MAX by {
        if n == shape.len() {
            assert(shape.take(n) == shape);
        } else if n == 1 {
            assert(shape.take(n).drop_last().len() == 0);
        }
    }
}

/// The digit `d` as a character.
pub open spec fn digit(d: nat) -> char {
    ('0' as nat + d) as char
}

/// A number in decimal notation.
pub open spec fn decimal(n: nat) -> Seq<char>
    decreases n,
{
    if n < 10 {
        seq![digit(n)]
    } else {
        decimal(n / 10).push(digit(n % 10))
    }
}

/// The digit `d` as a string.
fn digit_str(d: usize) -> (r: &'static str)
    requires
        d < 10,
    ensures
        r@ == seq![digit(d as nat)],
{
    proof {
        reveal_strlit("0");
        reveal_strlit("1");
        reveal_strlit("2");
        reveal_strlit("3");
        reveal_strlit("4");
        reveal_strlit("5");
        reveal_strlit("6");
        reveal_strlit("7");
        reveal_strlit("8");
        reveal_strlit("9");
    }
    match d {
        0 => "0",
        1 => "1",
        2 => "2",
        3 => "3",
        4 => "4",
        5 => "5",
        6 => "6",
        7 => "7",
        8 => "8",
        _ => "9",
    }
}

/// Append a number in decimal notation.
fn append_decimal(out: &mut String, n: usize)
    ensures
        final(out)@ == old(out)@ + decimal(n as nat),
    decreases n,
{
    if n >= 10 {
        append_decimal(out, n / 10);
    }
    out.append(digit_str(n % 10));
    assert(out@ == old(out)@ + decimal(n as nat));
}

/// The name under which a tensor of layer `layer` is saved. `part` starts with a dot.
pub open spec fn layer_tensor(layer: nat, part: Seq<char>) -> Seq<char> {
    "model.layers."@ + decimal(layer) + part
}

/// The name under which a tensor of layer `layer` is saved.
pub fn layer_tensor_name(layer: usize, part: &str) -> (r: String)
    ensures
        r@ == layer_tensor(layer as nat, part@),
{
    let mut name: String = "model.layers.".to_owned();
    append_decimal(&mut name, layer);
    name.append(part);
    name
}

/// The tensors of one layer.
pub struct LlamaLayer {
    pub input_layernorm: GpuBuffer<Half>,
    pub post_attention_layernorm: GpuBuffer<Half>,
    pub q_proj: GpuBuffer<Half>,
    pub k_proj: GpuBuffer<Half>,
    pub v_proj: GpuBuffer<Half>,
    pub o_proj: GpuBuffer<Half>,
    pub gate_proj: GpuBuffer<Half>,
    pub up_proj: GpuBuffer<Half>,
    pub down_proj: GpuBuffer<Half>,
}

/// Decimal notation is made of digits, and a single one stands for a number below ten.
proof fn lemma_decimal_digits(n: nat)
    ensures
        decimal(n).len() > 0,
        (decimal(n).len() == 1) == (n < 10),
        forall|i: int| 0 <= i < decimal(n).len() ==> '0' <= #[trigger] decimal(n)[i] <= '9',
    decreases n,
{
    if n >= 10 {
        lemma_decimal_digits(n / 10);
    }
}

/// Different numbers have different notations.
proof fn lemma_decimal_injective(m: nat, n: nat)
    requires
        decimal(m) == decimal(n),
    ensures
        m == n,
    decreases m,
{
    lemma_decimal_digits(m);
    lemma_decimal_digits(n);
    assert(decimal(m).last() == digit(m % 10));
    assert(decimal(n).last() == digit(n % 10));
    assert(m % 10 == n % 10);
    if m >= 10 {
        assert(decimal(m).drop_last() == decimal(m / 10));
        assert(decimal(n).drop_last() == decimal(n / 10));
        lemma_decimal_injective(m / 10, n / 10);
    }
}

/// No two tensors of the layers share a name: a name tells the layer and the part.
pub proof fn law_layer_tensor_names_are_unique(
    layer: nat,
    part: Seq<char>,
    other_layer: nat,
    other_part: Seq<char>,
)
    requires
        part.len() > 0 && part[0] == '.',
        other_part.len() > 0 && other_part[0] == '.',
        layer_tensor(layer, part) == layer_tensor(other_layer, other_part),
    ensures
        layer == other_layer,
        part == other_part,
{
    let prefix = "model.layers."@;
    let a = decimal(layer);
    let b = decimal(other_layer);
    let name = layer_tensor(layer, part);
    lemma_decimal_digits(layer);
    lemma_decimal_digits(other_layer);
    let tail = name.skip(prefix.len() as int);
    assert(tail == a + part);
    assert(tail == b + other_part);
    if a.len() < b.len() {
        assert(tail[a.len() as int] == '.');
        assert(tail[a.len() as int] == b[a.len() as int]);
    } else if b.len() < a.len() {
        assert(tail[b.len() as int] == '.');
        assert(tail[b.len() as int] == a[b.len() as int]);
    }
    assert(a == tail.take(a.len() as int));
    assert(b == tail.take(b.len() as int));
    assert(part == tail.skip(a.len() as int));
    assert(other_part == tail.skip(b.len() as int));
    lemma_decimal_injective(layer, other_layer);
}

/// The number that a run of digits stands for.
pub open spec fn reads_as(s: Seq<char>) -> int
    decreases s.len(),
{
    if s.len() == 0 {
        0
    } else {
        10 * reads_as(s.drop_last()) + (s.last() as int - '0' as int)
    }
}

/// Decimal notation reads back as the number it is of. It is made of digits and has no leading zero.
pub proof fn law_decimal_reads_back(n: nat)
    ensures
        reads_as(decimal(n)) == n,
        forall|i: int| 0 <= i < decimal(n).len() ==> '0' <= #[trigger] decimal(n)[i] <= '9',
        n > 0 ==> decimal(n)[0] != '0',
    decreases n,
{
    lemma_decimal_digits(n);
    if n >= 10 {
        law_decimal_reads_back(n / 10);
        assert(decimal(n).drop_last() == decimal(n / 10));
        assert(decimal(n).last() == digit(n % 10));
        assert(decimal(n)[0] == decimal(n / 10)[0]) by {
            lemma_decimal_digits(n / 10);
        }
    } else {
        assert(decimal(n).drop_last() == Seq::<char>::empty());
        assert(reads_as(Seq::<char>::empty()) == 0);
        assert(decimal(n).last() == digit(n));
    }
}

/// The name of a layer's tensor is the prefix, the layer's number in decimal, and the part.
pub proof fn law_layer_names_hold_the_number(layer: usize, part: &str, name: String)
    requires
        call_ensures(layer_tensor_name, (layer, part), name),
    ensures
        ({
            let prefix = "model.layers."@;
            let digits = name@.subrange(prefix.len() as int, name@.len() - part@.len());
            &&& prefix.len() + part@.len() < name@.len()
            &&& name@.take(prefix.len() as int) == prefix
            &&& reads_as(digits) == layer
            &&& name@.skip(name@.len() - part@.len()) == part@
        }),
{
    let prefix = "model.layers."@;
    let d = decimal(layer as nat);
    law_decimal_reads_back(layer as nat);
    lemma_decimal_digits(layer as nat);
    let digits = name@.subrange(prefix.len() as int, name@.len() - part@.len());
    assert(digits =~= d);
    assert(name@.take(prefix.len() as int) =~= prefix);
    assert(name@.skip(name@.len() - part@.len()) =~= part@);
}

/// Zeros of one or two dimensions are as many as the dimensions multiply to.
pub proof fn law_zeros_fill_their_shape(shape: Seq<usize>)
    requires
        1 <= shape.len() <= 2,
    ensures
        ({
            let zeros = crate::bridge::zero_tensor(shape);
            &&& zeros.shape == shape
            &&& zeros.data.len() == (if shape.len() == 1 {
                shape[0] as int
            } else {
                shape[0] * shape[1]
            })
            &&& forall|i: int|
                0 <= i < zeros.data.len() ==> (#[trigger] zeros.data[i]).bits == 0
        }),
{
    reveal_with_fuel(crate::bridge::element_count, 3);
    if shape.len() == 1 {
        assert(1 * shape[0] == shape[0]);
    } else {
        assert(shape.drop_last().last() == shape[0]);
        assert(shape.last() == shape[1]);
    }
}

/// One dimension more multiplies the number of zeros, at every number of dimensions.
pub proof fn law_a_dimension_multiplies(shape: Seq<usize>, d: usize)
    ensures
        crate::bridge::zero_tensor(shape.push(d)).data.len() == crate::bridge::zero_tensor(
            shape,
        ).data.len() * d,
        crate::bridge::zero_tensor(shape.push(d)).shape == shape.push(d),
        shape.len() == 0 ==> crate::bridge::zero_tensor(shape).data.len() == 1,
        forall|i: int|
            0 <= i < crate::bridge::zero_tensor(shape).data.len() ==> (
            #[trigger] crate::bridge::zero_tensor(shape).data[i]).bits == 0,
{
    assert(shape.push(d).drop_last() == shape);
}

} // verus!
