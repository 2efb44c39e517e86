//! Tensors, errors and the attention interface that the layers share.
use crate::float::Half;
use vstd::prelude::*;

verus! {

/// What can go wrong while a model is loaded or run.
#[derive(Debug)]
pub enum RunnerError {
    /// No tensor of this name was loaded.
    MissingWeight { name: String },
    /// A kernel or an attention backend gave up.
    Backend { message: String },
}

impl RunnerError {
    /// The same error, with the same text.
    pub open spec fn same(self, other: RunnerError) -> bool {
        match (self, other) {
            (
                RunnerError::MissingWeight { name: a },
                RunnerError::MissingWeight { name: b },
            ) => a@ == b@,
            (RunnerError::Backend { message: a }, RunnerError::Backend { message: b }) => a@ == b@,
            _ => false,
        }
    }
}

/// Two results agree: equal tensors, or the same error.
pub open spec fn same_outcome<T>(
    a: Result<GpuBuffer<T>, RunnerError>,
    b: Result<GpuBuffer<T>, RunnerError>,
) -> bool {
    match (a, b) {
        (Ok(x), Ok(y)) => x@ == y@,
        (Err(e), Err(f)) => e.same(f),
        _ => false,
    }
}

/// A tensor: its elements in row-major order, and its dimensions.
#[derive(Debug)]
pub struct GpuBuffer<T> {
    pub data: Vec<T>,
    pub shape: Vec<usize>,
}

/// What a tensor holds.
pub struct Tensor<T> {
    pub data: Seq<T>,
    pub shape: Seq<usize>,
}

impl<T> View for GpuBuffer<T> {
    type V = Tensor<T>;

    open spec fn view(&self) -> Tensor<T> {
        Tensor { data: self.data@, shape: self.shape@ }
    }
}

/// The number of elements of a tensor with these dimensions.
pub open spec fn element_count(shape: Seq<usize>) -> nat
    decreases shape.len(),
{
    if shape.len() == 0 {
        1
    } else {
        element_count(shape.drop_last()) * shape.last() as nat
    }
}

impl<T> GpuBuffer<T> {
    /// A tensor of the given elements and dimensions, which are taken as they are.
    pub fn from_vec(data: Vec<T>, shape: Vec<usize>) -> (r: Self)
        ensures
            r.data == data,
            r.shape == shape,
    {
        GpuBuffer { data, shape }
    }

    /// The first dimension, or 0 for a tensor without dimensions.
    pub open spec fn rows(self) -> nat {
        if self.shape@.len() == 0 {
            0
        } else {
            self.shape@[0] as nat
        }
    }

    /// The first dimension, or 0 for a tensor without dimensions.
    pub fn num_rows(&self) -> (r: usize)
        ensures
            r == self.rows(),
    {
        if self.shape.len() == 0 {
            0
        } else {
            self.shape[0]
        }
    }
}

impl GpuBuffer<Half> {
    /// Every element is a zero.
    pub open spec fn zero_valued(self) -> bool {
        forall|i: int| 0 <= i < self.data@.len() ==> (#[trigger] self.data@[i]).is_zero()
    }

    /// Every element is finite.
    pub open spec fn finite_valued(self) -> bool {
        forall|i: int| 0 <= i < self.data@.len() ==> (#[trigger] self.data@[i]).finite()
    }

    /// The same dimensions and numerically the same elements: zeros may differ in sign.
    pub open spec fn same_values(self, other: Self) -> bool {
        &&& self.shape@ == other.shape@
        &&& self.data@.len() == other.data@.len()
        &&& forall|i: int|
            #![trigger self.data@[i]]
            #![trigger other.data@[i]]
            0 <= i < self.data@.len() ==> self.data@[i].same_value(other.data@[i])
    }
}

/// A tensor of zeros.
pub open spec fn zero_tensor(shape: Seq<usize>) -> Tensor<Half> {
    Tensor { data: Seq::new(element_count(shape), |i: int| Half::zero()), shape }
}

/// The dimensions multiply, one after the other, within the range of `usize`.
pub open spec fn countable(shape: Seq<usize>) -> bool {
    forall|n: int|
        0 <= n <= shape.len() ==> element_count(#[trigger] shape.take(n)) <= usize::MAX
}

impl GpuBuffer<Half> {
    /// A tensor of zeros.
    pub fn zeros(shape: &[usize]) -> (r: Self)
        requires
            countable(shape@),
        ensures
            r@ == zero_tensor(shape@),
    {
        let mut count: usize = 1;
        let mut dims: Vec<usize> = Vec::with_capacity(shape.len());
        assert(shape@.take(0).len() == 0);
        for i in 0..shape.len()
            invariant
                countable(shape@),
                dims@ == shape@.take(i as int),
                count == element_count(shape@.take(i as int)),
        {
            let ghost next = shape@.take(i + 1);
            assert(next.drop_last() == shape@.take(i as int));
            assert(next.last() == shape@[i as int]);
            assert(element_count(next) == count * shape@[i as int]);
            count = count * shape[i];
            dims.push(shape[i]);
            assert(dims@ == next);
        }
        assert(shape@.take(shape@.len() as int) == shape@);
        let data: Vec<Half> = vec![Half::zero(); count];
        assert(data@ == zero_tensor(shape@).data);
        GpuBuffer { data, shape: dims }
    }

    /// A tensor with the same elements and dimensions.
    pub fn duplicate(&self) -> (r: Self)
        ensures
            r@ == self@,
    {
        let data = self.data.clone();
        let shape = self.shape.clone();
        assert(data@ == self.data@);
        assert(shape@ == self.shape@);
        GpuBuffer { data, shape }
    }
}

/// A tensor and the name it was saved under.
#[derive(Debug)]
pub struct NamedWeight {
    pub name: String,
    pub tensor: GpuBuffer<Half>,
}

/// The tensors of a model, by name. The last one inserted under a name counts.
#[derive(Debug)]
pub struct ModelWeights {
    entries: Vec<NamedWeight>,
}

spec fn by_name(entries: Seq<NamedWeight>) -> Map<Seq<char>, Tensor<Half>>
    decreases entries.len(),
{
    if entries.len() == 0 {
        Map::empty()
    } else {
        by_name(entries.drop_last()).insert(entries.last().name@, entries.last().tensor@)
    }
}

impl View for ModelWeights {
    type V = Map<Seq<char>, Tensor<Half>>;

    closed spec fn view(&self) -> Map<Seq<char>, Tensor<Half>> {
        by_name(self.entries@)
    }
}

impl Default for ModelWeights {
    /// No weights at all.
    fn default() -> (r: Self)
        ensures
            r@ == Map::<Seq<char>, Tensor<Half>>::empty(),
    {
        ModelWeights { entries: Vec::new() }
    }
}

impl ModelWeights {
    /// Add a tensor, or replace the one of that name.
    pub fn insert(&mut self, name: String, tensor: GpuBuffer<Half>)
        ensures
            final(self)@ == old(self)@.insert(name@, tensor@),
    {
        let ghost before = self.entries@;
        self.entries.push(NamedWeight { name, tensor });
        assert(self.entries@.drop_last() == before);
    }

    /// A copy of the tensor of this name.
    pub fn get_as_buffer(&self, name: &str) -> (r: Result<GpuBuffer<Half>, RunnerError>)
        ensures
            match r {
                Ok(tensor) => self@.contains_key(name@) && tensor@ == self@[name@],
                Err(e) => !self@.contains_key(name@) && (e matches RunnerError::MissingWeight {
                    name: missing,
                } && missing@ == name@),
            },
    {
        let wanted: String = name.to_owned();
        let mut i: usize = self.entries.len();
        assert(self.entries@.take(i as int) == self.entries@);
        while i > 0
            invariant
                i <= self.entries@.len(),
                wanted@ == name@,
                by_name(self.entries@.take(i as int)).contains_key(name@) == self@.contains_key(
                    name@,
                ),
                by_name(self.entries@.take(i as int))[name@] == self@[name@],
            decreases i,
        {
            let ghost part = self.entries@.take(i as int);
            assert(part.drop_last() == self.entries@.take(i - 1));
            i = i - 1;
            assert(part.last() == self.entries@[i as int]);
            if self.entries[i].name == wanted {
                return Ok(self.entries[i].tensor.duplicate());
            }
        }
        Err(RunnerError::MissingWeight { name: wanted })
    }
}

/// How the tokens of a batch map to cached blocks. Full-sequence attention does not read it.
#[derive(Debug)]
pub struct AttentionMetadata {
    pub slot_mapping: Vec<u32>,
    pub context_lens: Vec<u32>,
    pub block_tables: Vec<Vec<u32>>,
    pub query_lens: Vec<u32>,
    pub max_context_len: u32,
}

/// The size of a key/value cache. An encoder runs over the whole sequence at once and keeps none.
#[derive(Debug)]
pub struct CacheEngine {
    pub num_layers: usize,
    pub num_blocks: usize,
}

impl CacheEngine {
    /// A cache of this size.
    pub fn new(num_layers: usize, num_blocks: usize) -> (r: Self)
        ensures
            r.num_layers == num_layers,
            r.num_blocks == num_blocks,
    {
        CacheEngine { num_layers, num_blocks }
    }
}

/// Attention over the rows of a query, a key and a value tensor.
pub trait AttentionBackend {
    /// The operands that `forward` can work on: all of them, unless a backend says otherwise.
    open spec fn accepts(
        &self,
        query: &GpuBuffer<Half>,
        key: &GpuBuffer<Half>,
        value: &GpuBuffer<Half>,
    ) -> bool {
        true
    }

    /// Whether `forward` can work on these operands.
    fn fits(
        &self,
        query: &GpuBuffer<Half>,
        key: &GpuBuffer<Half>,
        value: &GpuBuffer<Half>,
    ) -> (r: bool)
        ensures
            r == self.accepts(query, key, value),
    ;

    /// Attention of one layer.
    fn forward(
        &self,
        query: &GpuBuffer<Half>,
        key: &GpuBuffer<Half>,
        value: &GpuBuffer<Half>,
        metadata: &AttentionMetadata,
        layer_idx: usize,
    ) -> Result<GpuBuffer<Half>, RunnerError>
        requires
            self.accepts(query, key, value),
    ;
}

} // verus!
