//! The parts of a model file that the runtime reads: tensor directory and
//! dimensions.
use crate::text::{self, chars_of, decimal_string, starts_with, str_eq};
use vstd::prelude::*;

verus! {

/// Storage format of a tensor.
#[derive(Clone, Copy, Debug, PartialEq, Eq, Structural)]
pub enum GgmlType {
    F32,
    F16,
    BF16,
    Q8_0,
    Q4_0,
    Q4K,
    Q6K,
    /// A format that is not decoded, with its block size and bytes per block.
    Other(usize, usize),
}

impl GgmlType {
    /// Elements per block.
    pub open spec fn elements(self) -> usize {
        match self {
            GgmlType::F32 => 1,
            GgmlType::F16 => 1,
            GgmlType::BF16 => 1,
            GgmlType::Q8_0 => 32,
            GgmlType::Q4_0 => 32,
            GgmlType::Q4K => 256,
            GgmlType::Q6K => 256,
            GgmlType::Other(n, _) => n,
        }
    }

    /// Bytes per block.
    pub open spec fn bytes(self) -> usize {
        match self {
            GgmlType::F32 => 4,
            GgmlType::F16 => 2,
            GgmlType::BF16 => 2,
            GgmlType::Q8_0 => 34,
            GgmlType::Q4_0 => 18,
            GgmlType::Q4K => 144,
            GgmlType::Q6K => 210,
            GgmlType::Other(_, n) => n,
        }
    }

    /// Elements per block.
    pub fn block_size(&self) -> (n: usize)
        ensures
            n == self.elements(),
    {
        match self {
            GgmlType::F32 => 1,
            GgmlType::F16 => 1,
            GgmlType::BF16 => 1,
            GgmlType::Q8_0 => 32,
            GgmlType::Q4_0 => 32,
            GgmlType::Q4K => 256,
            GgmlType::Q6K => 256,
            GgmlType::Other(n, _) => *n,
        }
    }

    /// Bytes per block.
    pub fn type_size(&self) -> (n: usize)
        ensures
            n == self.bytes(),
    {
        match self {
            GgmlType::F32 => 4,
            GgmlType::F16 => 2,
            GgmlType::BF16 => 2,
            GgmlType::Q8_0 => 34,
            GgmlType::Q4_0 => 18,
            GgmlType::Q4K => 144,
            GgmlType::Q6K => 210,
            GgmlType::Other(_, n) => *n,
        }
    }
}

/// Directory entry of a tensor.
#[derive(Debug)]
pub struct TensorInfo {
    pub name: String,
    pub dimensions: Vec<u64>,
    pub dtype: GgmlType,
    /// Position behind the start of the tensor data.
    pub offset: u64,
    pub size_bytes: u64,
}

/// Product of dimensions.
pub open spec fn product(dims: Seq<u64>) -> nat
    decreases dims.len(),
{
    if dims.len() == 0 {
        1
    } else {
        product(dims.drop_last()) * dims.last() as nat
    }
}

impl TensorInfo {
    /// Multiplying the dimensions in order stays within `usize`.
    pub open spec fn countable(self) -> bool {
        forall|k: int|
            0 <= k <= self.dimensions@.len() ==> product(#[trigger] self.dimensions@.take(k))
                <= usize::MAX
    }

    /// Number of elements, if multiplying the dimensions stays within `usize`.
    pub fn element_count(&self) -> (r: Option<usize>)
        ensures
            r is Some <==> self.countable(),
            r matches Some(n) ==> n == product(self.dimensions@),
    {
        let mut n: usize = 1;
        assert(self.dimensions@.take(0) == Seq::<u64>::empty());
        for i in 0..self.dimensions.len()
            invariant
                n == product(self.dimensions@.take(i as int)),
                forall|k: int|
                    0 <= k <= i ==> product(#[trigger] self.dimensions@.take(k)) <= usize::MAX,
        {
            let d: u64 = self.dimensions[i];
            let ghost next = self.dimensions@.take(i + 1);
            assert(next.drop_last() == self.dimensions@.take(i as int));
            assert(product(next) == n * d);
            if d > usize::MAX as u64 {
                if n == 0 {
                    assert(product(next) == 0) by (nonlinear_arith)
                        requires
                            product(next) == n * d,
                            n == 0,
                    ;
                    assert(n == 0);
                } else {
                    assert(product(next) > usize::MAX) by (nonlinear_arith)
                        requires
                            product(next) == n * d,
                            n >= 1,
                            d > usize::MAX,
                    ;
                    return None;
                }
            } else {
                match n.checked_mul(d as usize) {
                    Some(p) => {
                        n = p;
                    },
                    None => {
                        return None;
                    },
                }
            }
        }
        assert(self.dimensions@.take(self.dimensions@.len() as int) == self.dimensions@);
        Some(n)
    }
}

/// The name of a tensor of a layer: `blk.{layer}.{suffix}`.
pub open spec fn layer_name(layer: nat, suffix: Seq<char>) -> Seq<char> {
    "blk."@ + text::decimal(layer) + "."@ + suffix
}

/// Writes the name of a tensor of a layer.
pub fn layer_tensor_name(layer: u32, suffix: &str) -> (r: String)
    ensures
        r@ == layer_name(layer as nat, suffix@),
{
    let mut r = String::new();
    r.append("blk.");
    let number = decimal_string(layer as u64);
    r.append(number.as_str());
    r.append(".");
    r.append(suffix);
    r
}

/// Directory and dimensions of a model file.
#[derive(Debug)]
pub struct GgufFile {
    pub tensors: Vec<TensorInfo>,
    pub n_layers: u32,
    pub n_embd: u32,
    pub n_head: u32,
    pub n_head_kv: u32,
    pub vocab_size: u32,
    pub n_ctx: u32,
    pub is_moe: bool,
    pub n_experts: u32,
    pub n_experts_used: u32,
    /// Start of the tensor data in the file.
    pub data_offset: u64,
}

/// Position of the first tensor with a name.
pub open spec fn position_of(tensors: Seq<TensorInfo>, name: Seq<char>) -> Option<int>
    decreases tensors.len(),
{
    if tensors.len() == 0 {
        None
    } else if tensors[0].name@ == name {
        Some(0)
    } else {
        match position_of(tensors.drop_first(), name) {
            Some(i) => Some(i + 1),
            None => None,
        }
    }
}

/// `position_of` gives the first position, if there is one.
pub proof fn lemma_position_of(tensors: Seq<TensorInfo>, name: Seq<char>)
    ensures
        match position_of(tensors, name) {
            Some(i) => 0 <= i < tensors.len() && tensors[i].name@ == name && forall|j: int|
                0 <= j < i ==> (#[trigger] tensors[j]).name@ != name,
            None => forall|j: int| 0 <= j < tensors.len() ==> (#[trigger] tensors[j]).name@ != name,
        },
    decreases tensors.len(),
{
    if tensors.len() > 0 && tensors[0].name@ != name {
        let rest = tensors.drop_first();
        lemma_position_of(rest, name);
        assert forall|j: int|
            0 <= j < tensors.len() && (match position_of(tensors, name) {
                Some(i) => j < i,
                None => true,
            }) implies (#[trigger] tensors[j]).name@ != name by {
            if j > 0 {
                assert(rest[j - 1] == tensors[j]);
            }
        }
    }
}

/// The positions of a layer's tensors: those whose names begin with
/// `blk.{layer}.`, in file order.
pub open spec fn layer_positions(tensors: Seq<TensorInfo>, layer: nat) -> Seq<usize>
    decreases tensors.len(),
{
    if tensors.len() == 0 {
        seq![]
    } else {
        let before = layer_positions(tensors.drop_last(), layer);
        if text::begins_with(tensors.last().name@, layer_name(layer, seq![])) {
            before.push((tensors.len() - 1) as usize)
        } else {
            before
        }
    }
}

impl GgufFile {
    /// Position of the first tensor with a name.
    pub open spec fn position(self, name: Seq<char>) -> Option<int> {
        position_of(self.tensors@, name)
    }

    /// The first tensor with a name.
    pub open spec fn tensor(self, name: Seq<char>) -> Option<TensorInfo> {
        match self.position(name) {
            Some(i) => Some(self.tensors@[i]),
            None => None,
        }
    }

    /// The first tensor with a name.
    pub fn find_tensor<'a>(&'a self, name: &str) -> (r: Option<&'a TensorInfo>)
        ensures
            match r {
                Some(t) => self.position(name@) matches Some(i) && 0 <= i < self.tensors@.len()
                    && *t == self.tensors@[i] && t.name@ == name@,
                None => self.position(name@) is None,
            },
    {
        proof {
            lemma_position_of(self.tensors@, name@);
        }
        for i in 0..self.tensors.len()
            invariant
                forall|j: int| 0 <= j < i ==> (#[trigger] self.tensors@[j]).name@ != name@,
        {
            if str_eq(self.tensors[i].name.as_str(), name) {
                proof {
                    lemma_position_of(self.tensors@, name@);
                }
                return Some(&self.tensors[i]);
            }
        }
        proof {
            lemma_position_of(self.tensors@, name@);
        }
        None
    }

    /// The positions of a layer's tensors: those whose names begin with
    /// `blk.{layer}.`, in file order.
    pub fn layer_tensors(&self, layer: u32) -> (r: Vec<usize>)
        ensures
            r@ == layer_positions(self.tensors@, layer as nat),
            forall|k: int| 0 <= k < r@.len() ==> (#[trigger] r@[k]) < self.tensors@.len(),
    {
        let prefix = layer_tensor_name(layer, "");
        proof {
            reveal_strlit("");
            assert(""@ == Seq::<char>::empty());
        }
        let prefix_chars = chars_of(prefix.as_str());
        let mut r: Vec<usize> = Vec::new();
        for i in 0..self.tensors.len()
            invariant
                prefix_chars@ == layer_name(layer as nat, seq![]),
                r@ == layer_positions(self.tensors@.take(i as int), layer as nat),
                forall|k: int| 0 <= k < r@.len() ==> (#[trigger] r@[k]) < self.tensors@.len(),
        {
            assert(self.tensors@.take(i + 1).drop_last() == self.tensors@.take(i as int));
            let name = chars_of(self.tensors[i].name.as_str());
            if starts_with(name.as_slice(), prefix_chars.as_slice()) {
                r.push(i);
            }
        }
        assert(self.tensors@.take(self.tensors@.len() as int) == self.tensors@);
        r
    }
}

/// A block holds a scale of two bytes with eight bits for each of 32 elements, or
/// with four; or, for 256 elements, two scales, twelve bytes of packed scales and
/// minima and four bits for each, or six bits for each, sixteen scales and one more;
/// whole numbers take two or four bytes.
pub proof fn lemma_block_layouts(t: GgmlType, elements: usize, bytes: usize)
    requires
        call_ensures(GgmlType::block_size, (&t,), elements),
        call_ensures(GgmlType::type_size, (&t,), bytes),
    ensures
        t == GgmlType::F32 ==> elements == 1 && bytes == 4,
        t == GgmlType::F16 || t == GgmlType::BF16 ==> elements == 1 && bytes == 2,
        t == GgmlType::Q8_0 ==> elements == 32 && 8 * bytes == 16 + 8 * elements,
        t == GgmlType::Q4_0 ==> elements == 32 && 8 * bytes == 16 + 4 * elements,
        t == GgmlType::Q4K ==> elements == 256 && 8 * bytes == 32 + 96 + 4 * elements,
        t == GgmlType::Q6K ==> elements == 256 && 8 * bytes == 128 + 16 + 6 * elements,
        t matches GgmlType::Other(n, m) ==> elements == n && bytes == m,
{
}

/// A name finds the first tensor that has it.
pub proof fn lemma_name_finds_first_tensor(
    gguf: &GgufFile,
    name: &str,
    r: Option<&TensorInfo>,
    i: int,
)
    requires
        call_ensures(GgufFile::find_tensor, (gguf, name), r),
    ensures
        r is Some <==> exists|k: int|
            0 <= k < gguf.tensors@.len() && (#[trigger] gguf.tensors@[k]).name@ == name@,
        0 <= i < gguf.tensors@.len() && gguf.tensors@[i].name@ == name@ && (forall|j: int|
            0 <= j < i ==> (#[trigger] gguf.tensors@[j]).name@ != name@) ==> (r matches Some(t)
            && *t == gguf.tensors@[i]),
{
    lemma_position_of(gguf.tensors@, name@);
}

proof fn lemma_layer_positions(tensors: Seq<TensorInfo>, layer: nat)
    requires
        tensors.len() <= usize::MAX,
    ensures
        forall|k: int|
            0 <= k < layer_positions(tensors, layer).len() ==> (#[trigger] layer_positions(
                tensors,
                layer,
            )[k]) < tensors.len() && text::begins_with(
                tensors[layer_positions(tensors, layer)[k] as int].name@,
                layer_name(layer, seq![]),
            ),
        forall|i: int, j: int|
            0 <= i < j < layer_positions(tensors, layer).len() ==> (#[trigger] layer_positions(
                tensors,
                layer,
            )[i]) < (#[trigger] layer_positions(tensors, layer)[j]),
        forall|n: int|
            0 <= n < tensors.len() && text::begins_with(
                (#[trigger] tensors[n]).name@,
                layer_name(layer, seq![]),
            ) ==> layer_positions(tensors, layer).contains(n as usize),
    decreases tensors.len(),
{
    if tensors.len() > 0 {
        let init = tensors.drop_last();
        lemma_layer_positions(init, layer);
        let before = layer_positions(init, layer);
        let all = layer_positions(tensors, layer);
        assert forall|k: int| 0 <= k < all.len() implies (#[trigger] all[k]) < tensors.len()
            && text::begins_with(tensors[all[k] as int].name@, layer_name(layer, seq![])) by {
            if k < before.len() {
                assert(all[k] == before[k]);
                assert(init[before[k] as int] == tensors[before[k] as int]);
            }
        }
        assert forall|i: int, j: int| 0 <= i < j < all.len() implies (#[trigger] all[i]) < (
        #[trigger] all[j]) by {
            assert(all[i] == before[i]);
            if j < before.len() {
                assert(all[j] == before[j]);
            }
        }
        assert forall|n: int|
            0 <= n < tensors.len() && text::begins_with(
                (#[trigger] tensors[n]).name@,
                layer_name(layer, seq![]),
            ) implies all.contains(n as usize) by {
            if n < init.len() {
                assert(init[n] == tensors[n]);
                let k = choose|k: int| 0 <= k < before.len() && before[k] == n as usize;
                assert(all[k] == n as usize);
            } else {
                assert(all[before.len() as int] == n as usize);
            }
        }
    }
}

/// The tensors of a layer are, in file order, exactly those whose names begin with
/// `blk.`, the number of the layer in decimal, and a dot.
pub proof fn lemma_layer_has_its_tensors(gguf: &GgufFile, layer: u32, r: Vec<usize>)
    requires
        call_ensures(GgufFile::layer_tensors, (gguf, layer), r),
    ensures
        ({
            let prefix = "blk."@ + text::decimal(layer as nat) + "."@;
            &&& forall|k: int|
                0 <= k < r@.len() ==> (#[trigger] r@[k]) < gguf.tensors@.len()
                    && text::begins_with(gguf.tensors@[r@[k] as int].name@, prefix)
            &&& forall|i: int, j: int|
                0 <= i < j < r@.len() ==> (#[trigger] r@[i]) < (#[trigger] r@[j])
            &&& forall|n: int|
                0 <= n < gguf.tensors@.len() && text::begins_with(
                    (#[trigger] gguf.tensors@[n]).name@,
                    prefix,
                ) ==> r@.contains(n as usize)
        }),
{
    let prefix = "blk."@ + text::decimal(layer as nat) + "."@;
    assert(prefix + Seq::<char>::empty() == prefix);
    assert(gguf.tensors.len() == gguf.tensors@.len());
    lemma_layer_positions(gguf.tensors@, layer as nat);
}

/// No tensor belongs to two layers.
pub proof fn lemma_layers_share_no_tensor(name: Seq<char>, a: nat, b: nat)
    requires
        text::begins_with(name, layer_name(a, seq![])),
        text::begins_with(name, layer_name(b, seq![])),
    ensures
        a == b,
{
    reveal_strlit("blk.");
    reveal_strlit(".");
    let x = text::decimal(a);
    let y = text::decimal(b);
    let p = layer_name(a, seq![]);
    let q = layer_name(b, seq![]);
    text::lemma_decimal_digits(a);
    text::lemma_decimal_digits(b);
    assert(p.len() == 4 + x.len() + 1);
    assert(q.len() == 4 + y.len() + 1);
    assert forall|i: int| 0 <= i < p.len() implies name[i] == p[i] by {
        assert(name.take(p.len() as int)[i] == p[i]);
    }
    assert forall|i: int| 0 <= i < q.len() implies name[i] == q[i] by {
        assert(name.take(q.len() as int)[i] == q[i]);
    }
    assert(p[(4 + x.len()) as int] == '.' && q[(4 + y.len()) as int] == '.');
    if x.len() < y.len() {
        assert(q[(4 + x.len()) as int] == y[x.len() as int]);
        assert(text::is_digit(y[x.len() as int]));
    } else if y.len() < x.len() {
        assert(p[(4 + y.len()) as int] == x[y.len() as int]);
        assert(text::is_digit(x[y.len() as int]));
    }
    assert forall|i: int| 0 <= i < x.len() implies x[i] == y[i] by {
        assert(p[4 + i] == x[i] && q[4 + i] == y[i]);
    }
    assert(x == y);
}

/// The number of elements is the product of all dimensions, unless multiplying them
/// in order leaves the range of `usize`.
pub proof fn lemma_elements_are_counted(t: &TensorInfo, r: Option<usize>)
    requires
        call_ensures(TensorInfo::element_count, (t,), r),
    ensures
        r matches Some(n) ==> n == t.dimensions@.fold_left(1int, |n: int, d: u64| n * d),
        r is Some <==> forall|k: int|
            0 <= k <= t.dimensions@.len() ==> (#[trigger] t.dimensions@.take(k)).fold_left(
                1int,
                |n: int, d: u64| n * d,
            ) <= usize::MAX,
{
    let dims = t.dimensions@;
    lemma_product(dims);
    assert forall|k: int| 0 <= k <= dims.len() implies product(#[trigger] dims.take(k))
        == dims.take(k).fold_left(1int, |n: int, d: u64| n * d) by {
        lemma_product(dims.take(k));
    }
}

proof fn lemma_product(dims: Seq<u64>)
    ensures
        product(dims) == dims.fold_left(1int, |n: int, d: u64| n * d),
    decreases dims.len(),
{
    reveal_with_fuel(Seq::fold_left, 2);
    if dims.len() > 0 {
        lemma_product(dims.drop_last());
    }
}

/// The name of a layer's tensor: `blk.`, the layer in decimal, a dot and the suffix.
pub proof fn lemma_layer_tensor_is_named(layer: u32, suffix: &str, r: String)
    requires
        call_ensures(layer_tensor_name, (layer, suffix), r),
    ensures
        r@ == "blk."@ + text::decimal(layer as nat) + "."@ + suffix@,
{
}

} // verus!
