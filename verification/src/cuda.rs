//! Device memory accounting and the operations of GPU matrix-vector products.
//!
//! A product is planned as a sequence of device operations. Matrices are named
//! by their place among the arguments; buffers are named by use and length.
use crate::text::string_copy;
use vstd::hash_map::StringHashMap;
use vstd::prelude::*;

verus! {

/// A reusable buffer.
#[derive(Clone, Copy, Debug, PartialEq, Eq, Structural)]
pub enum Buffer {
    /// Device input of a product.
    X(usize),
    /// Device output of a product.
    Y(usize),
    /// Device output of the up projection.
    Up(usize),
    /// Host staging of an output.
    Host(usize),
}

/// Dimensions of a product as the device library takes them.
#[derive(Clone, Copy, Debug, PartialEq, Eq, Structural)]
pub struct GemvShape {
    pub m: i32,
    pub n: i32,
    pub lda: i32,
}

/// A device operation.
#[derive(Clone, Copy, Debug, PartialEq, Eq, Structural)]
pub enum GpuOp {
    /// Allocate a buffer.
    Allocate(Buffer),
    /// Copy the input vector from the host.
    Upload(Buffer),
    /// Multiply an uploaded matrix with a buffer.
    Multiply { matrix: usize, input: Buffer, output: Buffer, shape: GemvShape },
    /// Gate the up projection, from `Y` and `Up` into `X`.
    Activate(usize),
    /// Copy an output to the host: it is one of the results.
    Download(usize),
}

/// An uploaded matrix.
#[derive(Clone, Copy, Debug, PartialEq, Eq, Structural)]
pub struct GpuTensor {
    pub out_dim: usize,
    pub in_dim: usize,
}

/// Device state: uploaded matrices, memory use, buffers, and whether the
/// activation kernel could be compiled.
pub struct CudaGpu {
    pub tensors: StringHashMap<GpuTensor>,
    pub vram_used: usize,
    pub vram_budget: usize,
    pub buffers: Vec<Buffer>,
    pub fused: bool,
}

/// Shape of a row-major product.
pub open spec fn shape_of(in_dim: usize, out_dim: usize) -> GemvShape {
    GemvShape { m: in_dim as i32, n: out_dim as i32, lda: in_dim as i32 }
}

/// Shape of a row-major product.
pub fn gemv_cfg(in_dim: usize, out_dim: usize) -> (r: GemvShape)
    ensures
        r == shape_of(in_dim, out_dim),
{
    GemvShape { m: in_dim as i32, n: out_dim as i32, lda: in_dim as i32 }
}

/// The wanted buffers that are not there yet, each once, in order.
pub open spec fn missing(wanted: Seq<Buffer>, have: Seq<Buffer>) -> Seq<Buffer>
    decreases wanted.len(),
{
    if wanted.len() == 0 {
        seq![]
    } else {
        let before = missing(wanted.drop_last(), have);
        if have.contains(wanted.last()) || before.contains(wanted.last()) {
            before
        } else {
            before.push(wanted.last())
        }
    }
}

/// The allocations of the wanted buffers.
pub open spec fn allocations(wanted: Seq<Buffer>, have: Seq<Buffer>) -> Seq<GpuOp> {
    missing(wanted, have).map_values(|b: Buffer| GpuOp::Allocate(b))
}

fn has_buffer(list: &[Buffer], b: Buffer) -> (r: bool)
    ensures
        r == list@.contains(b),
{
    for i in 0..list.len()
        invariant
            forall|j: int| 0 <= j < i ==> list@[j] != b,
    {
        if list[i] == b {
            return true;
        }
    }
    false
}

/// One product in a plan.
pub open spec fn multiply(matrix: int, input: Buffer, output: Buffer, shape: GemvShape) -> GpuOp {
    GpuOp::Multiply { matrix: matrix as usize, input, output, shape }
}

/// Operations of a plan behind the allocations.
pub open spec fn product_ops(t: GpuTensor) -> Seq<GpuOp> {
    let x = Buffer::X(t.in_dim);
    seq![
        GpuOp::Upload(x),
        multiply(0, x, Buffer::Y(t.out_dim), shape_of(t.in_dim, t.out_dim)),
        GpuOp::Download(t.out_dim),
    ]
}

/// Operations of gate and up products with one upload.
pub open spec fn gate_up_ops(g: GpuTensor) -> Seq<GpuOp> {
    let x = Buffer::X(g.in_dim);
    let shape = shape_of(g.in_dim, g.out_dim);
    seq![
        GpuOp::Upload(x),
        multiply(0, x, Buffer::Y(g.out_dim), shape),
        GpuOp::Download(g.out_dim),
        multiply(1, x, Buffer::Y(g.out_dim), shape),
        GpuOp::Download(g.out_dim),
    ]
}

/// Operations of the query, key and value products with one upload.
pub open spec fn qkv_ops(q: GpuTensor, k: GpuTensor) -> Seq<GpuOp> {
    let x = Buffer::X(q.in_dim);
    let shape = shape_of(q.in_dim, k.out_dim);
    seq![
        GpuOp::Upload(x),
        multiply(0, x, Buffer::Y(q.out_dim), shape_of(q.in_dim, q.out_dim)),
        GpuOp::Download(q.out_dim),
        multiply(1, x, Buffer::Y(k.out_dim), shape),
        GpuOp::Download(k.out_dim),
        multiply(2, x, Buffer::Y(k.out_dim), shape),
        GpuOp::Download(k.out_dim),
    ]
}

/// Operations of the fused feed-forward part.
pub open spec fn ffn_ops(g: GpuTensor, d: GpuTensor) -> Seq<GpuOp> {
    let x = Buffer::X(g.in_dim);
    let shape = shape_of(g.in_dim, g.out_dim);
    seq![
        GpuOp::Upload(x),
        multiply(0, x, Buffer::Y(g.out_dim), shape),
        multiply(1, x, Buffer::Up(g.out_dim), shape),
        GpuOp::Activate(g.out_dim),
        multiply(
            2,
            Buffer::X(g.out_dim),
            Buffer::Y(d.out_dim),
            shape_of(g.out_dim, d.out_dim),
        ),
        GpuOp::Download(d.out_dim),
    ]
}

/// The buffers of a product.
pub open spec fn product_buffers(in_dim: usize, out_dim: usize) -> Seq<Buffer> {
    seq![Buffer::X(in_dim), Buffer::Y(out_dim), Buffer::Host(out_dim)]
}

impl CudaGpu {
    /// Memory use stays within the budget.
    pub open spec fn valid(self) -> bool {
        self.vram_used <= self.vram_budget
    }

    /// The uploaded matrix of a name.
    pub open spec fn tensor(self, name: Seq<char>) -> Option<GpuTensor> {
        if self.tensors@.contains_key(name) {
            Some(self.tensors@[name])
        } else {
            None
        }
    }

    /// The elements fit beside what is in use.
    pub open spec fn room(self, elements: int) -> bool {
        self.vram_used + 4 * elements <= self.vram_budget
    }

    /// A device with a memory budget. `fused` tells whether the activation
    /// kernel could be compiled.
    pub fn new(vram_budget_bytes: usize, fused: bool) -> (r: Self)
        ensures
            r.valid(),
            r.tensors@ == Map::<Seq<char>, GpuTensor>::empty(),
            r.vram_used == 0,
            r.vram_budget == vram_budget_bytes,
            r.buffers@.len() == 0,
            r.fused == fused,
    {
        CudaGpu {
            tensors: StringHashMap::new(),
            vram_used: 0,
            vram_budget: vram_budget_bytes,
            buffers: Vec::new(),
            fused,
        }
    }

    /// Memory that is left of the budget.
    pub fn vram_remaining(&self) -> (n: usize)
        ensures
            n == (if self.vram_used <= self.vram_budget {
                self.vram_budget - self.vram_used
            } else {
                0
            }),
    {
        self.vram_budget.saturating_sub(self.vram_used)
    }

    /// Whether a matrix of so many elements may be copied to the device.
    pub fn admits(&self, elements: usize) -> (b: bool)
        requires
            self.valid(),
        ensures
            b == self.room(elements as int),
    {
        elements <= (self.vram_budget - self.vram_used) / 4
    }

    /// Records an upload. `copied` tells whether the device took the copy. True
    /// if the matrix fits and was copied; otherwise nothing changes.
    pub fn upload(
        &mut self,
        name: &str,
        elements: usize,
        out_dim: usize,
        in_dim: usize,
        copied: bool,
    ) -> (b: bool)
        requires
            old(self).valid(),
        ensures
            final(self).valid(),
            b == (copied && old(self).room(elements as int)),
            !b ==> *final(self) == *old(self),
            b ==> final(self).vram_used == old(self).vram_used + 4 * elements,
            b ==> final(self).tensors@ == old(self).tensors@.insert(
                name@,
                GpuTensor { out_dim, in_dim },
            ),
            final(self).vram_budget == old(self).vram_budget,
            final(self).buffers == old(self).buffers,
            final(self).fused == old(self).fused,
    {
        if !copied || !self.admits(elements) {
            return false;
        }
        self.vram_used = self.vram_used + 4 * elements;
        self.tensors.insert(string_copy(name), GpuTensor { out_dim, in_dim });
        true
    }

    /// Whether a matrix is on the device.
    pub fn has(&self, name: &str) -> (b: bool)
        ensures
            b == (self.tensor(name@) is Some),
    {
        self.tensors.contains_key(name)
    }

    fn lookup(&self, name: &str) -> (r: Option<GpuTensor>)
        ensures
            r == self.tensor(name@),
    {
        match self.tensors.get(name) {
            Some(t) => Some(*t),
            None => None,
        }
    }

    /// Records a buffer that the device has allocated.
    pub fn allocated(&mut self, buffer: Buffer)
        requires
            old(self).valid(),
        ensures
            final(self).valid(),
            final(self).buffers@ == old(self).buffers@.push(buffer),
            final(self).tensors == old(self).tensors,
            final(self).vram_used == old(self).vram_used,
            final(self).vram_budget == old(self).vram_budget,
            final(self).fused == old(self).fused,
    {
        self.buffers.push(buffer);
    }

    /// The allocations that the wanted buffers need.
    fn ensure_bufs(&self, wanted: &[Buffer]) -> (r: Vec<GpuOp>)
        ensures
            r@ == allocations(wanted@, self.buffers@),
    {
        let mut new: Vec<Buffer> = Vec::new();
        let mut r: Vec<GpuOp> = Vec::new();
        assert(wanted@.take(0) == Seq::<Buffer>::empty());
        for i in 0..wanted.len()
            invariant
                new@ == missing(wanted@.take(i as int), self.buffers@),
                r@ == new@.map_values(|b: Buffer| GpuOp::Allocate(b)),
        {
            assert(wanted@.take(i + 1).drop_last() == wanted@.take(i as int));
            let b = wanted[i];
            if !has_buffer(self.buffers.as_slice(), b) && !has_buffer(new.as_slice(), b) {
                let ghost before = new@;
                new.push(b);
                r.push(GpuOp::Allocate(b));
                assert(r@ == new@.map_values(|b: Buffer| GpuOp::Allocate(b)));
            }
        }
        assert(wanted@.take(wanted@.len() as int) == wanted@);
        r
    }

    /// The plan of one product, if the matrix is on the device.
    pub fn sgemv(&self, name: &str) -> (r: Option<Vec<GpuOp>>)
        ensures
            match self.tensor(name@) {
                Some(t) => r matches Some(ops) && ops@ == allocations(
                    product_buffers(t.in_dim, t.out_dim),
                    self.buffers@,
                ) + product_ops(t),
                None => r is None,
            },
    {
        let t = match self.lookup(name) {
            Some(t) => t,
            None => {
                return None;
            },
        };
        let x = Buffer::X(t.in_dim);
        let wanted: [Buffer; 3] = [x, Buffer::Y(t.out_dim), Buffer::Host(t.out_dim)];
        assert(wanted@ == product_buffers(t.in_dim, t.out_dim));
        let mut ops = self.ensure_bufs(&wanted);
        let shape = gemv_cfg(t.in_dim, t.out_dim);
        let ghost start = ops@;
        ops.push(GpuOp::Upload(x));
        ops.push(GpuOp::Multiply { matrix: 0, input: x, output: Buffer::Y(t.out_dim), shape });
        ops.push(GpuOp::Download(t.out_dim));
        assert(ops@ == start + product_ops(t));
        Some(ops)
    }

    /// The plan of gate and up products, if both matrices are on the
    /// device. The input is uploaded once.
    pub fn sgemv_gate_up(&self, gate_name: &str, up_name: &str) -> (r: Option<Vec<GpuOp>>)
        ensures
            match (self.tensor(gate_name@), self.tensor(up_name@)) {
                (Some(g), Some(_)) => r matches Some(ops) && ops@ == allocations(
                    product_buffers(g.in_dim, g.out_dim),
                    self.buffers@,
                ) + gate_up_ops(g),
                _ => r is None,
            },
    {
        let (g, up) = match (self.lookup(gate_name), self.lookup(up_name)) {
            (Some(g), Some(up)) => (g, up),
            _ => {
                return None;
            },
        };
        let x = Buffer::X(g.in_dim);
        let y = Buffer::Y(g.out_dim);
        let wanted: [Buffer; 3] = [x, y, Buffer::Host(g.out_dim)];
        assert(wanted@ == product_buffers(g.in_dim, g.out_dim));
        let mut ops = self.ensure_bufs(&wanted);
        let shape = gemv_cfg(g.in_dim, g.out_dim);
        let ghost start = ops@;
        ops.push(GpuOp::Upload(x));
        ops.push(GpuOp::Multiply { matrix: 0, input: x, output: y, shape });
        ops.push(GpuOp::Download(g.out_dim));
        ops.push(GpuOp::Multiply { matrix: 1, input: x, output: y, shape });
        ops.push(GpuOp::Download(g.out_dim));
        assert(ops@ == start + gate_up_ops(g));
        Some(ops)
    }

    /// The plan of the query, key and value products, if the three matrices are
    /// on the device. The input is uploaded once; key and value share their
    /// dimensions.
    pub fn sgemv_qkv(&self, q_name: &str, k_name: &str, v_name: &str) -> (r: Option<Vec<GpuOp>>)
        ensures
            match (self.tensor(q_name@), self.tensor(k_name@), self.tensor(v_name@)) {
                (Some(q), Some(k), Some(_)) => r matches Some(ops) && ops@ == allocations(
                    product_buffers(q.in_dim, q.out_dim) + product_buffers(q.in_dim, k.out_dim),
                    self.buffers@,
                ) + qkv_ops(q, k),
                _ => r is None,
            },
    {
        let (q, k, v) = match (self.lookup(q_name), self.lookup(k_name), self.lookup(v_name)) {
            (Some(q), Some(k), Some(v)) => (q, k, v),
            _ => {
                return None;
            },
        };
        let x = Buffer::X(q.in_dim);
        let yq = Buffer::Y(q.out_dim);
        let yk = Buffer::Y(k.out_dim);
        let wanted: [Buffer; 6] = [
            x,
            yq,
            Buffer::Host(q.out_dim),
            x,
            yk,
            Buffer::Host(k.out_dim),
        ];
        assert(wanted@ == product_buffers(q.in_dim, q.out_dim) + product_buffers(
            q.in_dim,
            k.out_dim,
        ));
        let mut ops = self.ensure_bufs(&wanted);
        let shape = gemv_cfg(q.in_dim, k.out_dim);
        let ghost start = ops@;
        ops.push(GpuOp::Upload(x));
        ops.push(
            GpuOp::Multiply {
                matrix: 0,
                input: x,
                output: yq,
                shape: gemv_cfg(q.in_dim, q.out_dim),
            },
        );
        ops.push(GpuOp::Download(q.out_dim));
        ops.push(GpuOp::Multiply { matrix: 1, input: x, output: yk, shape });
        ops.push(GpuOp::Download(k.out_dim));
        ops.push(GpuOp::Multiply { matrix: 2, input: x, output: yk, shape });
        ops.push(GpuOp::Download(k.out_dim));
        assert(ops@ == start + qkv_ops(q, k));
        Some(ops)
    }

    /// The plan of the fused feed-forward part, if the activation kernel is
    /// available and the three matrices are on the device.
    pub fn ffn_fused(&self, gate_name: &str, up_name: &str, down_name: &str) -> (r: Option<
        Vec<GpuOp>,
    >)
        ensures
            match (self.tensor(gate_name@), self.tensor(up_name@), self.tensor(down_name@)) {
                (Some(g), Some(_), Some(d)) => if self.fused {
                    r matches Some(ops) && ops@ == allocations(
                        product_buffers(g.in_dim, g.out_dim) + seq![Buffer::Up(g.out_dim)]
                            + product_buffers(g.out_dim, d.out_dim),
                        self.buffers@,
                    ) + ffn_ops(g, d)
                } else {
                    r is None
                },
                _ => r is None,
            },
    {
        if !self.fused {
            return None;
        }
        let (g, up, d) = match (
            self.lookup(gate_name),
            self.lookup(up_name),
            self.lookup(down_name),
        ) {
            (Some(g), Some(up), Some(d)) => (g, up, d),
            _ => {
                return None;
            },
        };
        let x = Buffer::X(g.in_dim);
        let y = Buffer::Y(g.out_dim);
        let inner = Buffer::X(g.out_dim);
        let out = Buffer::Y(d.out_dim);
        let wanted: [Buffer; 7] = [
            x,
            y,
            Buffer::Host(g.out_dim),
            Buffer::Up(g.out_dim),
            inner,
            out,
            Buffer::Host(d.out_dim),
        ];
        assert(wanted@ == product_buffers(g.in_dim, g.out_dim) + seq![Buffer::Up(g.out_dim)]
            + product_buffers(g.out_dim, d.out_dim));
        let mut ops = self.ensure_bufs(&wanted);
        let shape = gemv_cfg(g.in_dim, g.out_dim);
        let ghost start = ops@;
        ops.push(GpuOp::Upload(x));
        ops.push(GpuOp::Multiply { matrix: 0, input: x, output: y, shape });
        ops.push(
            GpuOp::Multiply { matrix: 1, input: x, output: Buffer::Up(g.out_dim), shape },
        );
        ops.push(GpuOp::Activate(g.out_dim));
        ops.push(
            GpuOp::Multiply {
                matrix: 2,
                input: inner,
                output: out,
                shape: gemv_cfg(g.out_dim, d.out_dim),
            },
        );
        ops.push(GpuOp::Download(d.out_dim));
        assert(ops@ == start + ffn_ops(g, d));
        Some(ops)
    }
}

/// How many transfers between host and device a plan makes: uploads and
/// downloads.
pub open spec fn transfers(ops: Seq<GpuOp>) -> (nat, nat)
    decreases ops.len(),
{
    if ops.len() == 0 {
        (0, 0)
    } else {
        let t = transfers(ops.drop_last());
        match ops.last() {
            GpuOp::Upload(_) => (t.0 + 1, t.1),
            GpuOp::Download(_) => (t.0, t.1 + 1),
            _ => t,
        }
    }
}

proof fn lemma_transfers_of_sum(a: Seq<GpuOp>, b: Seq<GpuOp>)
    ensures
        transfers(a + b).0 == transfers(a).0 + transfers(b).0,
        transfers(a + b).1 == transfers(a).1 + transfers(b).1,
    decreases b.len(),
{
    if b.len() == 0 {
        assert(a + b == a);
    } else {
        lemma_transfers_of_sum(a, b.drop_last());
        assert((a + b).drop_last() == a + b.drop_last());
    }
}

proof fn lemma_allocations_transfer_nothing(ops: Seq<GpuOp>)
    requires
        forall|i: int| 0 <= i < ops.len() ==> (#[trigger] ops[i]) is Allocate,
    ensures
        transfers(ops) == (0nat, 0nat),
    decreases ops.len(),
{
    if ops.len() > 0 {
        lemma_allocations_transfer_nothing(ops.drop_last());
    }
}

/// Transfers of the plans: one product needs one upload and one download; gate
/// and up together one upload and two downloads; query, key and value together
/// one upload and three downloads; and the fused feed-forward part one upload
/// and one download.
pub proof fn lemma_plan_transfers(
    wanted: Seq<Buffer>,
    have: Seq<Buffer>,
    a: GpuTensor,
    b: GpuTensor,
)
    ensures
        transfers(allocations(wanted, have) + product_ops(a)) == (1nat, 1nat),
        transfers(allocations(wanted, have) + gate_up_ops(a)) == (1nat, 2nat),
        transfers(allocations(wanted, have) + qkv_ops(a, b)) == (1nat, 3nat),
        transfers(allocations(wanted, have) + ffn_ops(a, b)) == (1nat, 1nat),
{
    let start = allocations(wanted, have);
    lemma_allocations_transfer_nothing(start);
    lemma_transfers_of_sum(start, product_ops(a));
    lemma_transfers_of_sum(start, gate_up_ops(a));
    lemma_transfers_of_sum(start, qkv_ops(a, b));
    lemma_transfers_of_sum(start, ffn_ops(a, b));
    let p = product_ops(a);
    let g = gate_up_ops(a);
    let q = qkv_ops(a, b);
    let f = ffn_ops(a, b);
    assert(p.take(0) == Seq::<GpuOp>::empty());
    assert(g.take(0) == Seq::<GpuOp>::empty());
    assert(q.take(0) == Seq::<GpuOp>::empty());
    assert(f.take(0) == Seq::<GpuOp>::empty());
    lemma_transfers_step(p, 0);
    lemma_transfers_step(p, 1);
    lemma_transfers_step(p, 2);
    assert(p.take(3) == p);
    lemma_transfers_step(g, 0);
    lemma_transfers_step(g, 1);
    lemma_transfers_step(g, 2);
    lemma_transfers_step(g, 3);
    lemma_transfers_step(g, 4);
    assert(g.take(5) == g);
    lemma_transfers_step(q, 0);
    lemma_transfers_step(q, 1);
    lemma_transfers_step(q, 2);
    lemma_transfers_step(q, 3);
    lemma_transfers_step(q, 4);
    lemma_transfers_step(q, 5);
    lemma_transfers_step(q, 6);
    assert(q.take(7) == q);
    lemma_transfers_step(f, 0);
    lemma_transfers_step(f, 1);
    lemma_transfers_step(f, 2);
    lemma_transfers_step(f, 3);
    lemma_transfers_step(f, 4);
    lemma_transfers_step(f, 5);
    assert(f.take(6) == f);
}

proof fn lemma_transfers_step(ops: Seq<GpuOp>, k: int)
    requires
        0 <= k < ops.len(),
    ensures
        transfers(ops.take(k + 1)) == (match ops[k] {
            GpuOp::Upload(_) => (transfers(ops.take(k)).0 + 1, transfers(ops.take(k)).1),
            GpuOp::Download(_) => (transfers(ops.take(k)).0, transfers(ops.take(k)).1 + 1),
            _ => transfers(ops.take(k)),
        }),
{
    assert(ops.take(k + 1).drop_last() == ops.take(k));
}

/// What a buffer holds, told by how it came about.
pub enum Vector {
    /// Nothing that a plan has put there.
    Stale,
    /// The input vector of the plan.
    Input,
    /// The product of a matrix, by its place among the arguments, with a vector.
    Product(int, Box<Vector>),
    /// The activation of a gate, times an up projection.
    Gated(Box<Vector>, Box<Vector>),
}

/// A device: the dimensions of the matrices that a plan names, what each
/// allocated buffer holds, and the results that were copied to the host.
pub struct Device {
    pub matrices: Seq<GpuTensor>,
    pub memory: Map<Buffer, Vector>,
    pub results: Seq<Vector>,
}

impl Device {
    /// The device after an operation; none where it cannot carry it out: a buffer
    /// is allocated that is there, or used that is not; or the dimensions of a
    /// matrix, of its product and of the buffers do not agree.
    pub open spec fn step(self, op: GpuOp) -> Option<Device> {
        match op {
            GpuOp::Allocate(b) => if self.memory.contains_key(b) {
                None
            } else {
                Some(Device { memory: self.memory.insert(b, Vector::Stale), ..self })
            },
            GpuOp::Upload(b) => if self.memory.contains_key(b) && b is X {
                Some(Device { memory: self.memory.insert(b, Vector::Input), ..self })
            } else {
                None
            },
            GpuOp::Multiply { matrix, input, output, shape } => {
                let t = self.matrices[matrix as int];
                if matrix < self.matrices.len() && self.memory.contains_key(input)
                    && self.memory.contains_key(output) && input == Buffer::X(t.in_dim) && (output
                    == Buffer::Y(t.out_dim) || output == Buffer::Up(t.out_dim)) && shape.m
                    == t.in_dim && shape.n == t.out_dim && shape.lda == t.in_dim {
                    let product = Vector::Product(matrix as int, Box::new(self.memory[input]));
                    Some(Device { memory: self.memory.insert(output, product), ..self })
                } else {
                    None
                }
            },
            GpuOp::Activate(n) => if self.memory.contains_key(Buffer::Y(n))
                && self.memory.contains_key(Buffer::Up(n)) && self.memory.contains_key(
                Buffer::X(n),
            ) {
                let gated = Vector::Gated(
                    Box::new(self.memory[Buffer::Y(n)]),
                    Box::new(self.memory[Buffer::Up(n)]),
                );
                Some(Device { memory: self.memory.insert(Buffer::X(n), gated), ..self })
            } else {
                None
            },
            GpuOp::Download(n) => if self.memory.contains_key(Buffer::Y(n))
                && self.memory.contains_key(Buffer::Host(n)) {
                Some(Device { results: self.results.push(self.memory[Buffer::Y(n)]), ..self })
            } else {
                None
            },
        }
    }

    /// The device after a plan.
    pub open spec fn run(self, ops: Seq<GpuOp>) -> Option<Device>
        decreases ops.len(),
    {
        if ops.len() == 0 {
            Some(self)
        } else {
            match self.run(ops.drop_last()) {
                Some(d) => d.step(ops.last()),
                None => None,
            }
        }
    }

    /// The buffers that are there are the recorded ones, and the matrices are
    /// these. Dimensions fit the device library.
    pub open spec fn is_ready(self, have: Seq<Buffer>, matrices: Seq<GpuTensor>) -> bool {
        &&& self.matrices == matrices
        &&& self.results.len() == 0
        &&& forall|b: Buffer| #[trigger] self.memory.contains_key(b) <==> have.contains(b)
        &&& forall|i: int|
            0 <= i < matrices.len() ==> (#[trigger] matrices[i]).in_dim <= i32::MAX
                && matrices[i].out_dim <= i32::MAX
    }
}

proof fn lemma_run_step(d: Device, ops: Seq<GpuOp>, k: int)
    requires
        0 <= k < ops.len(),
    ensures
        d.run(ops.take(k + 1)) == (match d.run(ops.take(k)) {
            Some(e) => e.step(ops[k]),
            None => None,
        }),
{
    assert(ops.take(k + 1).drop_last() == ops.take(k));
}

proof fn lemma_run_of_sum(d: Device, a: Seq<GpuOp>, b: Seq<GpuOp>)
    ensures
        d.run(a + b) == (match d.run(a) {
            Some(e) => e.run(b),
            None => None,
        }),
    decreases b.len(),
{
    if b.len() == 0 {
        assert(a + b == a);
    } else {
        lemma_run_of_sum(d, a, b.drop_last());
        assert((a + b).drop_last() == a + b.drop_last());
    }
}

/// The missing buffers are the wanted ones that are not there, each once.
pub proof fn lemma_missing(wanted: Seq<Buffer>, have: Seq<Buffer>)
    ensures
        missing(wanted, have).no_duplicates(),
        forall|b: Buffer| #[trigger]
            missing(wanted, have).contains(b) <==> wanted.contains(b) && !have.contains(b),
    decreases wanted.len(),
{
    if wanted.len() > 0 {
        let init = wanted.drop_last();
        let last = wanted.last();
        let before = missing(init, have);
        let after = missing(wanted, have);
        lemma_missing(init, have);
        assert forall|b: Buffer| #[trigger] after.contains(b) <==> wanted.contains(b)
            && !have.contains(b) by {
            if before.contains(b) {
                let i = choose|i: int| 0 <= i < before.len() && before[i] == b;
                assert(after[i] == b);
            }
            if after.contains(b) {
                let i = choose|i: int| 0 <= i < after.len() && after[i] == b;
                assert(i < before.len() ==> before[i] == b);
            }
            if init.contains(b) {
                let i = choose|i: int| 0 <= i < init.len() && init[i] == b;
                assert(wanted[i] == b);
            }
            if wanted.contains(b) && b != last {
                let i = choose|i: int| 0 <= i < wanted.len() && wanted[i] == b;
                assert(init[i] == b);
            }
            if b == last {
                assert(wanted[wanted.len() - 1] == b);
                if !have.contains(b) && !before.contains(b) {
                    assert(after[before.len() as int] == b);
                }
            }
        }
        assert forall|i: int, j: int|
            0 <= i < after.len() && 0 <= j < after.len() && i != j implies after[i] != after[j] by {
            if i == before.len() {
                assert(after[j] == before[j]);
                assert(before.contains(before[j]));
            } else if j == before.len() {
                assert(after[i] == before[i]);
                assert(before.contains(before[i]));
            } else {
                assert(after[i] == before[i] && after[j] == before[j]);
            }
        }
    }
}

proof fn lemma_allocations_run(d: Device, fresh: Seq<Buffer>)
    requires
        fresh.no_duplicates(),
        forall|i: int| 0 <= i < fresh.len() ==> !d.memory.contains_key(#[trigger] fresh[i]),
    ensures
        d.run(fresh.map_values(|b: Buffer| GpuOp::Allocate(b))) matches Some(e) && {
            &&& e.matrices == d.matrices
            &&& e.results == d.results
            &&& forall|b: Buffer| #[trigger]
                e.memory.contains_key(b) <==> d.memory.contains_key(b) || fresh.contains(b)
        },
    decreases fresh.len(),
{
    let ops = fresh.map_values(|b: Buffer| GpuOp::Allocate(b));
    if fresh.len() > 0 {
        let init = fresh.drop_last();
        let last = fresh.last();
        assert forall|i: int| 0 <= i < init.len() implies !d.memory.contains_key(
            #[trigger] init[i],
        ) by {
            assert(init[i] == fresh[i]);
        }
        lemma_allocations_run(d, init);
        assert(ops.drop_last() == init.map_values(|b: Buffer| GpuOp::Allocate(b)));
        let e = d.run(ops.drop_last())->Some_0;
        assert(fresh[fresh.len() - 1] == last);
        assert(!init.contains(last)) by {
            if init.contains(last) {
                let i = choose|i: int| 0 <= i < init.len() && init[i] == last;
                assert(fresh[i] == last);
            }
        }
        assert(!e.memory.contains_key(last));
        let f = d.run(ops)->Some_0;
        assert forall|b: Buffer| #[trigger] f.memory.contains_key(b) <==> d.memory.contains_key(b)
            || fresh.contains(b) by {
            assert(f.memory.contains_key(b) <==> e.memory.contains_key(b) || b == last);
            if init.contains(b) {
                let i = choose|i: int| 0 <= i < init.len() && init[i] == b;
                assert(fresh[i] == b);
            }
            if fresh.contains(b) && b != last {
                let i = choose|i: int| 0 <= i < fresh.len() && fresh[i] == b;
                assert(init[i] == b);
            }
        }
    }
}

proof fn lemma_ready_for(d: Device, have: Seq<Buffer>, matrices: Seq<GpuTensor>, wanted: Seq<Buffer>)
    requires
        d.is_ready(have, matrices),
    ensures
        d.run(allocations(wanted, have)) matches Some(e) && {
            &&& e.matrices == matrices
            &&& e.results.len() == 0
            &&& forall|b: Buffer| #[trigger]
                e.memory.contains_key(b) <==> have.contains(b) || wanted.contains(b)
        },
{
    let fresh = missing(wanted, have);
    lemma_missing(wanted, have);
    assert forall|i: int| 0 <= i < fresh.len() implies !d.memory.contains_key(#[trigger] fresh[i]) by {
        assert(fresh.contains(fresh[i]));
    }
    lemma_allocations_run(d, fresh);
}

/// The product of a matrix with the input.
pub open spec fn times_input(matrix: int) -> Vector {
    Vector::Product(matrix, Box::new(Vector::Input))
}

/// A product plan can be carried out, and its one result is the product of the
/// named matrix with the input.
pub proof fn lemma_product_is_computed(gpu: &CudaGpu, name: &str, r: Option<Vec<GpuOp>>, d: Device)
    requires
        call_ensures(CudaGpu::sgemv, (gpu, name), r),
        gpu.tensors@.contains_key(name@),
        d.is_ready(gpu.buffers@, seq![gpu.tensors@[name@]]),
    ensures
        r matches Some(ops) && d.run(ops@) matches Some(e) && e.results == seq![times_input(0)],
{
    let t = gpu.tensors@[name@];
    let wanted = product_buffers(t.in_dim, t.out_dim);
    let ops = product_ops(t);
    lemma_ready_for(d, gpu.buffers@, seq![t], wanted);
    let e = d.run(allocations(wanted, gpu.buffers@))->Some_0;
    lemma_run_of_sum(d, allocations(wanted, gpu.buffers@), ops);
    assert(seq![t][0] == t);
    assert(wanted[0] == Buffer::X(t.in_dim) && wanted[1] == Buffer::Y(t.out_dim) && wanted[2]
        == Buffer::Host(t.out_dim));
    assert(ops.take(0) == Seq::<GpuOp>::empty());
    lemma_run_step(e, ops, 0);
    lemma_run_step(e, ops, 1);
    lemma_run_step(e, ops, 2);
    assert(ops.take(3) == ops);
    assert(e.run(ops)->Some_0.results == seq![times_input(0)]);
}

/// A gate and up plan can be carried out where both matrices have the same
/// dimensions. Its results are the product of its gating matrix with the input, then
/// that of the up matrix.
pub proof fn lemma_gate_and_up_are_computed(
    gpu: &CudaGpu,
    gate: &str,
    up: &str,
    r: Option<Vec<GpuOp>>,
    d: Device,
)
    requires
        call_ensures(CudaGpu::sgemv_gate_up, (gpu, gate, up), r),
        gpu.tensors@.contains_key(gate@),
        gpu.tensors@.contains_key(up@),
        gpu.tensors@[up@] == gpu.tensors@[gate@],
        d.is_ready(gpu.buffers@, seq![gpu.tensors@[gate@], gpu.tensors@[up@]]),
    ensures
        r matches Some(ops) && d.run(ops@) matches Some(e) && e.results == seq![
            times_input(0),
            times_input(1),
        ],
{
    let t = gpu.tensors@[gate@];
    let all = seq![t, gpu.tensors@[up@]];
    let wanted = product_buffers(t.in_dim, t.out_dim);
    let ops = gate_up_ops(t);
    lemma_ready_for(d, gpu.buffers@, all, wanted);
    let e = d.run(allocations(wanted, gpu.buffers@))->Some_0;
    lemma_run_of_sum(d, allocations(wanted, gpu.buffers@), ops);
    assert(all[0] == t && all[1] == t);
    assert(wanted[0] == Buffer::X(t.in_dim) && wanted[1] == Buffer::Y(t.out_dim) && wanted[2]
        == Buffer::Host(t.out_dim));
    assert(ops.take(0) == Seq::<GpuOp>::empty());
    lemma_run_step(e, ops, 0);
    lemma_run_step(e, ops, 1);
    lemma_run_step(e, ops, 2);
    lemma_run_step(e, ops, 3);
    lemma_run_step(e, ops, 4);
    assert(ops.take(5) == ops);
    assert(e.run(ops)->Some_0.results == seq![times_input(0), times_input(1)]);
}

/// A query, key and value plan can be carried out where the three matrices take
/// the same input and key and value have the same dimensions. Its results are the
/// products of the query, the key and the value matrix with the input, in this
/// order.
pub proof fn lemma_query_key_and_value_are_computed(
    gpu: &CudaGpu,
    query: &str,
    key: &str,
    value: &str,
    r: Option<Vec<GpuOp>>,
    d: Device,
)
    requires
        call_ensures(CudaGpu::sgemv_qkv, (gpu, query, key, value), r),
        gpu.tensors@.contains_key(query@),
        gpu.tensors@.contains_key(key@),
        gpu.tensors@.contains_key(value@),
        gpu.tensors@[value@] == gpu.tensors@[key@],
        gpu.tensors@[key@].in_dim == gpu.tensors@[query@].in_dim,
        d.is_ready(
            gpu.buffers@,
            seq![gpu.tensors@[query@], gpu.tensors@[key@], gpu.tensors@[value@]],
        ),
    ensures
        r matches Some(ops) && d.run(ops@) matches Some(e) && e.results == seq![
            times_input(0),
            times_input(1),
            times_input(2),
        ],
{
    let q = gpu.tensors@[query@];
    let k = gpu.tensors@[key@];
    let all = seq![q, k, gpu.tensors@[value@]];
    let wanted = product_buffers(q.in_dim, q.out_dim) + product_buffers(q.in_dim, k.out_dim);
    let ops = qkv_ops(q, k);
    lemma_ready_for(d, gpu.buffers@, all, wanted);
    let e = d.run(allocations(wanted, gpu.buffers@))->Some_0;
    lemma_run_of_sum(d, allocations(wanted, gpu.buffers@), ops);
    assert(all[0] == q && all[1] == k && all[2] == k);
    assert(wanted[0] == Buffer::X(q.in_dim) && wanted[1] == Buffer::Y(q.out_dim) && wanted[2]
        == Buffer::Host(q.out_dim) && wanted[4] == Buffer::Y(k.out_dim) && wanted[5]
        == Buffer::Host(k.out_dim));
    assert(ops.take(0) == Seq::<GpuOp>::empty());
    lemma_run_step(e, ops, 0);
    lemma_run_step(e, ops, 1);
    lemma_run_step(e, ops, 2);
    lemma_run_step(e, ops, 3);
    lemma_run_step(e, ops, 4);
    lemma_run_step(e, ops, 5);
    lemma_run_step(e, ops, 6);
    assert(ops.take(7) == ops);
    assert(e.run(ops)->Some_0.results == seq![times_input(0), times_input(1), times_input(2)]);
}

/// A fused feed-forward plan can be carried out where gate and up have the same
/// dimensions and down takes their output. Its one result is the product of the
/// down matrix with the gated up projection: the up product, gated by the product of
/// its gating matrix.
pub proof fn lemma_feed_forward_is_computed(
    gpu: &CudaGpu,
    gate: &str,
    up: &str,
    down: &str,
    r: Option<Vec<GpuOp>>,
    d: Device,
)
    requires
        call_ensures(CudaGpu::ffn_fused, (gpu, gate, up, down), r),
        gpu.fused,
        gpu.tensors@.contains_key(gate@),
        gpu.tensors@.contains_key(up@),
        gpu.tensors@.contains_key(down@),
        gpu.tensors@[up@] == gpu.tensors@[gate@],
        gpu.tensors@[down@].in_dim == gpu.tensors@[gate@].out_dim,
        d.is_ready(
            gpu.buffers@,
            seq![gpu.tensors@[gate@], gpu.tensors@[up@], gpu.tensors@[down@]],
        ),
    ensures
        r matches Some(ops) && d.run(ops@) matches Some(e) && e.results == seq![
            Vector::Product(
                2,
                Box::new(Vector::Gated(Box::new(times_input(0)), Box::new(times_input(1)))),
            ),
        ],
{
    let g = gpu.tensors@[gate@];
    let t = gpu.tensors@[down@];
    let all = seq![g, gpu.tensors@[up@], t];
    let wanted = product_buffers(g.in_dim, g.out_dim) + seq![Buffer::Up(g.out_dim)]
        + product_buffers(g.out_dim, t.out_dim);
    let ops = ffn_ops(g, t);
    lemma_ready_for(d, gpu.buffers@, all, wanted);
    let e = d.run(allocations(wanted, gpu.buffers@))->Some_0;
    lemma_run_of_sum(d, allocations(wanted, gpu.buffers@), ops);
    assert(all[0] == g && all[1] == g && all[2] == t);
    assert(wanted[0] == Buffer::X(g.in_dim) && wanted[1] == Buffer::Y(g.out_dim) && wanted[3]
        == Buffer::Up(g.out_dim) && wanted[4] == Buffer::X(g.out_dim) && wanted[5] == Buffer::Y(
        t.out_dim,
    ) && wanted[6] == Buffer::Host(t.out_dim));
    assert(ops.take(0) == Seq::<GpuOp>::empty());
    lemma_run_step(e, ops, 0);
    lemma_run_step(e, ops, 1);
    lemma_run_step(e, ops, 2);
    lemma_run_step(e, ops, 3);
    lemma_run_step(e, ops, 4);
    lemma_run_step(e, ops, 5);
    assert(ops.take(6) == ops);
    let product = Vector::Product(
        2,
        Box::new(Vector::Gated(Box::new(times_input(0)), Box::new(times_input(1)))),
    );
    assert(e.run(ops)->Some_0.results == seq![product]);
}

/// A plan is given exactly where every matrix that it names is on the device, and
/// for the fused one where the activation kernel is there too.
pub proof fn lemma_plans_need_their_matrices(
    gpu: &CudaGpu,
    a: &str,
    b: &str,
    c: &str,
    plans: (Option<Vec<GpuOp>>, Option<Vec<GpuOp>>, Option<Vec<GpuOp>>, Option<Vec<GpuOp>>),
)
    requires
        call_ensures(CudaGpu::sgemv, (gpu, a), plans.0),
        call_ensures(CudaGpu::sgemv_gate_up, (gpu, a, b), plans.1),
        call_ensures(CudaGpu::sgemv_qkv, (gpu, a, b, c), plans.2),
        call_ensures(CudaGpu::ffn_fused, (gpu, a, b, c), plans.3),
    ensures
        ({
            let has = |name: &str| gpu.tensors@.contains_key(name@);
            &&& plans.0 is Some <==> has(a)
            &&& plans.1 is Some <==> has(a) && has(b)
            &&& plans.2 is Some <==> has(a) && has(b) && has(c)
            &&& plans.3 is Some <==> gpu.fused && has(a) && has(b) && has(c)
        }),
{
}

/// A matrix is admitted exactly where four bytes for each element fit into what is
/// left of the budget.
pub proof fn lemma_budget_is_kept(gpu: &CudaGpu, elements: usize, admitted: bool, left: usize)
    requires
        gpu.valid(),
        call_ensures(CudaGpu::admits, (gpu, elements), admitted),
        call_ensures(CudaGpu::vram_remaining, (gpu,), left),
    ensures
        left + gpu.vram_used == gpu.vram_budget,
        admitted <==> 4 * elements <= left,
{
}

/// The shape of a product: as many columns and as long rows as the input has
/// elements, and as many results as the output.
pub proof fn lemma_shape_of_product(in_dim: usize, out_dim: usize, r: GemvShape)
    requires
        in_dim <= i32::MAX,
        out_dim <= i32::MAX,
        call_ensures(gemv_cfg, (in_dim, out_dim), r),
    ensures
        r.m == in_dim && r.n == out_dim && r.lda == in_dim,
{
}

/// A tensor that was copied stays on the device exactly if its elements, of four
/// bytes each, fit beside what is there; it is then found by its name, and whatever
/// else was there still is.
pub proof fn lemma_upload_fits_or_changes_nothing(
    gpu: &mut CudaGpu,
    name: &str,
    elements: usize,
    out_dim: usize,
    in_dim: usize,
    copied: bool,
    b: bool,
    other: Seq<char>,
)
    requires
        call_ensures(CudaGpu::upload, (gpu, name, elements, out_dim, in_dim, copied), b),
    ensures
        b <==> copied && old(gpu).vram_used + 4 * elements <= old(gpu).vram_budget,
        final(gpu).vram_used == old(gpu).vram_used + if b {
            4 * elements
        } else {
            0
        },
        b ==> final(gpu).tensors@.contains_key(name@) && final(gpu).tensors@[name@].out_dim
            == out_dim && final(gpu).tensors@[name@].in_dim == in_dim,
        !b || other != name@ ==> (final(gpu).tensors@.contains_key(other) <==> old(
            gpu,
        ).tensors@.contains_key(other)) && final(gpu).tensors@[other] == old(gpu).tensors@[other],
        final(gpu).vram_budget == old(gpu).vram_budget,
{
}

} // verus!
