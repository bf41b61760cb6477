//! The computation graph and the schedule: tensors, operations, problems, subgraphs.
use std::collections::HashSet;
use vstd::prelude::*;
use crate::{arith, graph};

verus! {

pub type BaseCost = i64;

pub type Depth = i64;

pub type FastMemoryCapacity = i64;

pub type Height = i64;

pub type Width = i64;

pub type SlowMemoryBandwidth = i64;

pub type TraversalOrder = Vec<i64>;

pub type TensorId = usize;

pub type OpId = usize;

/// A tensor with its spatial dimensions.
#[derive(Debug, Clone, Copy, PartialEq, Eq, Structural)]
pub struct Tensor {
    pub width: Width,
    pub height: Height,
}

impl Tensor {
    /// Width times height.
    pub open spec fn area(&self) -> int {
        self.width * self.height
    }

    /// The part of the tensor that one tile of the granularity covers.
    pub open spec fn tile_area(&self, g: Granularity) -> int {
        arith::least(self.width as int, g.width as int) * arith::least(self.height as int, g.height as int)
    }

    /// The number of memory units the tensor takes.
    pub fn size(&self) -> (size: i64)
        requires
            arith::fits(self.area()),
        ensures
            size == self.area(),
    {
        self.width * self.height
    }

    /// The number of memory units that one tile of the tensor takes.
    pub fn slice_size(&self, granularity: &Granularity) -> (size: i64)
        requires
            arith::fits(self.tile_area(*granularity)),
        ensures
            size == self.tile_area(*granularity),
    {
        let w: i64 = arith::least_of(self.width, granularity.width);
        let h: i64 = arith::least_of(self.height, granularity.height);
        w * h
    }
}

/// The kinds of operations.
#[derive(Debug, Clone, Copy, PartialEq, Eq, Hash, Structural)]
pub enum OpType {
    Pointwise,
    MatMul,
}

impl OpType {
    /// The name of the kind.
    pub open spec fn name(&self) -> Seq<char> {
        match self {
            OpType::Pointwise => "Pointwise"@,
            OpType::MatMul => "MatMul"@,
        }
    }

    /// The kind with the given name; an unknown name means pointwise.
    pub fn parse(s: &str) -> (kind: Self)
        ensures
            kind == kind_named(s@),
    {
        if s.to_owned() == "MatMul".to_owned() {
            OpType::MatMul
        } else {
            OpType::Pointwise
        }
    }

    /// The name of the kind.
    pub fn as_str(&self) -> (name: &'static str)
        ensures
            name@ == self.name(),
    {
        match self {
            OpType::Pointwise => "Pointwise",
            OpType::MatMul => "MatMul",
        }
    }
}

impl core::str::FromStr for OpType {
    type Err = ();

    /// Reads the name of a kind; this never fails.
    fn from_str(s: &str) -> (kind: Result<Self, Self::Err>)
        ensures
            kind == Ok::<OpType, ()>(kind_named(s@)),
    {
        Ok(OpType::parse(s))
    }
}

/// The kind with the given name; an unknown name means pointwise.
pub open spec fn kind_named(name: Seq<char>) -> OpType {
    if name == "MatMul"@ {
        OpType::MatMul
    } else {
        OpType::Pointwise
    }
}

/// Reading back the name of a kind gives that kind.
pub proof fn names_are_read_back(kind: OpType)
    ensures
        kind_named(kind.name()) == kind,
{
    reveal_strlit("Pointwise");
    reveal_strlit("MatMul");
    assert(OpType::Pointwise.name().len() != OpType::MatMul.name().len());
}

/// An operation of the computation graph.
#[derive(Debug, PartialEq, Eq)]
pub struct Op {
    pub op_type: OpType,
    pub inputs: Vec<TensorId>,
    pub outputs: Vec<TensorId>,
    pub base_cost: BaseCost,
}

impl Op {
    /// Both operations have the same kind, cost and tensors.
    pub open spec fn same(&self, other: &Op) -> bool {
        &&& self.op_type == other.op_type
        &&& self.inputs@ == other.inputs@
        &&& self.outputs@ == other.outputs@
        &&& self.base_cost == other.base_cost
    }

    /// Pointwise operations can always be fused.
    pub fn is_fusible(&self) -> (yes: bool)
        ensures
            yes == (self.op_type == OpType::Pointwise),
    {
        matches!(self.op_type, OpType::Pointwise)
    }

    /// Whether this is a matrix product.
    pub fn is_matmul(&self) -> (yes: bool)
        ensures
            yes == (self.op_type == OpType::MatMul),
    {
        matches!(self.op_type, OpType::MatMul)
    }
}

impl Clone for Op {
    fn clone(&self) -> (copy: Self)
        ensures
            copy.same(self),
    {
        Op {
            op_type: self.op_type,
            inputs: self.inputs.clone(),
            outputs: self.outputs.clone(),
            base_cost: self.base_cost,
        }
    }
}

/// How operations are tiled: the tile's width and height, and the split of the reduction dimension.
#[derive(Debug, Clone, Copy, PartialEq, Eq, Structural)]
pub struct Granularity {
    pub width: Width,
    pub height: Height,
    pub depth: Depth,
}

impl Granularity {
    /// The granularity with this tile and split.
    pub fn new(width: Width, height: Height, depth: Depth) -> (g: Self)
        ensures
            g == (Granularity { width, height, depth }),
    {
        Granularity { width, height, depth }
    }

    /// Reads `[w, h]` or `[w, h, d]`; what is missing is 1.
    pub fn from_array(arr: &[i64]) -> (g: Self)
        ensures
            g.width == if arr@.len() > 0 { arr@[0] } else { 1 },
            g.height == if arr@.len() > 1 { arr@[1] } else { 1 },
            g.depth == if arr@.len() > 2 { arr@[2] } else { 1 },
    {
        Granularity {
            width: if arr.len() > 0 { arr[0] } else { 1 },
            height: if arr.len() > 1 { arr[1] } else { 1 },
            depth: if arr.len() > 2 { arr[2] } else { 1 },
        }
    }

    /// The number of tiles of length `tile` that cover `length`.
    pub open spec fn tiles_along(length: int, tile: int) -> int {
        arith::quotient(length + tile - 1, tile)
    }

    /// The number of spatial tiles that cover a tensor.
    pub fn num_tiles(&self, tensor: &Tensor) -> (tiles: i64)
        requires
            self.width != 0,
            self.height != 0,
            arith::fits(tensor.width + self.width),
            arith::fits(tensor.width + self.width - 1),
            arith::fits(tensor.height + self.height),
            arith::fits(tensor.height + self.height - 1),
            arith::fits(Self::tiles_along(tensor.width as int, self.width as int)),
            arith::fits(Self::tiles_along(tensor.height as int, self.height as int)),
            arith::fits(
                Self::tiles_along(tensor.width as int, self.width as int) * Self::tiles_along(
                    tensor.height as int,
                    self.height as int,
                ),
            ),
        ensures
            tiles == Self::tiles_along(tensor.width as int, self.width as int) * Self::tiles_along(
                tensor.height as int,
                self.height as int,
            ),
    {
        let w: i64 = tensor.width + self.width - 1;
        let h: i64 = tensor.height + self.height - 1;
        assert(0x8000_0000_0000_0000int / (-1) == -0x8000_0000_0000_0000) by (nonlinear_arith);
        let w_tiles: i64 = w / self.width;
        let h_tiles: i64 = h / self.height;
        w_tiles * h_tiles
    }

    /// Half the width and the height, at least 1 each.
    pub open spec fn halved(&self) -> Granularity {
        Granularity {
            width: arith::greatest(arith::quotient(self.width as int, 2), 1) as i64,
            height: arith::greatest(arith::quotient(self.height as int, 2), 1) as i64,
            depth: self.depth,
        }
    }

    /// Halves the width and the height, down to 1.
    pub fn halve(&self) -> (g: Self)
        ensures
            g == self.halved(),
    {
        Granularity {
            width: arith::greatest_of(self.width / 2, 1),
            height: arith::greatest_of(self.height / 2, 1),
            depth: self.depth,
        }
    }

    /// The same tile with the reduction split into `k` passes.
    pub open spec fn split(&self, k: int) -> Granularity {
        Granularity { width: self.width, height: self.height, depth: k as i64 }
    }

    /// The same tile with the reduction split into `k` passes.
    pub fn with_split_k(&self, k: Depth) -> (g: Self)
        ensures
            g == self.split(k as int),
    {
        Granularity { width: self.width, height: self.height, depth: k }
    }
}

impl Default for Granularity {
    fn default() -> (g: Self)
        ensures
            g == (Granularity { width: 128, height: 128, depth: 1 }),
    {
        Granularity { width: 128, height: 128, depth: 1 }
    }
}

/// The tiles along a dimension cover it, and one tile fewer would not.
pub proof fn tiles_cover(length: int, tile: int)
    requires
        length >= 0,
        tile > 0,
    ensures
        Granularity::tiles_along(length, tile) * tile >= length,
        length > 0 ==> (Granularity::tiles_along(length, tile) - 1) * tile < length,
{
    let n = length + tile - 1;
    let q = n / tile;
    assert(n == tile * q + n % tile && 0 <= n % tile < tile) by (nonlinear_arith)
        requires
            tile > 0,
            q == n / tile,
    ;
    assert(q * tile == tile * q) by (nonlinear_arith);
    assert((q - 1) * tile == tile * q - tile) by (nonlinear_arith);
}

/// Halving never goes below a 1 by 1 tile, never widens a tile, and keeps the split.
pub proof fn halving_shrinks(g: Granularity)
    requires
        g.width >= 1,
        g.height >= 1,
    ensures
        1 <= g.halved().width <= g.width,
        1 <= g.halved().height <= g.height,
        g.halved().depth == g.depth,
{
}

/// The complete scheduling problem.
#[derive(Debug)]
pub struct Problem {
    pub tensors: Vec<Tensor>,
    pub ops: Vec<Op>,
    pub fast_memory_capacity: FastMemoryCapacity,
    pub slow_memory_bandwidth: SlowMemoryBandwidth,
    pub native_granularity: Granularity,
}

impl Clone for Problem {
    fn clone(&self) -> (copy: Self)
        ensures
            copy.tensors@ == self.tensors@,
            same_ops(copy.ops@, self.ops@),
            copy.fast_memory_capacity == self.fast_memory_capacity,
            copy.slow_memory_bandwidth == self.slow_memory_bandwidth,
            copy.native_granularity == self.native_granularity,
    {
        Problem {
            tensors: copy_tensors(&self.tensors),
            ops: copy_ops(&self.ops),
            fast_memory_capacity: self.fast_memory_capacity,
            slow_memory_bandwidth: self.slow_memory_bandwidth,
            native_granularity: self.native_granularity,
        }
    }
}

/// The two lists hold the same operations.
pub open spec fn same_ops(a: Seq<Op>, b: Seq<Op>) -> bool {
    a.len() == b.len() && forall|i: int| 0 <= i < a.len() ==> #[trigger] a[i].same(&b[i])
}

/// Copies a list of ids.
pub fn copy_ids(ids: &[usize]) -> (copy: Vec<usize>)
    ensures
        copy@ == ids@,
{
    let mut copy: Vec<usize> = Vec::new();
    let mut i: usize = 0;
    while i < ids.len()
        invariant
            i <= ids@.len(),
            copy@ == ids@.take(i as int),
        decreases ids@.len() - i,
    {
        copy.push(ids[i]);
        assert(ids@.take(i + 1) =~= ids@.take(i as int).push(ids@[i as int]));
        i = i + 1;
    }
    assert(ids@.take(i as int) =~= ids@);
    copy
}

/// Copies a list of tensors.
pub fn copy_tensors(tensors: &[Tensor]) -> (copy: Vec<Tensor>)
    ensures
        copy@ == tensors@,
{
    let mut copy: Vec<Tensor> = Vec::new();
    let mut i: usize = 0;
    while i < tensors.len()
        invariant
            i <= tensors@.len(),
            copy@ == tensors@.take(i as int),
        decreases tensors@.len() - i,
    {
        copy.push(tensors[i]);
        assert(tensors@.take(i + 1) =~= tensors@.take(i as int).push(tensors@[i as int]));
        i = i + 1;
    }
    assert(tensors@.take(i as int) =~= tensors@);
    copy
}

/// Copies a list of operations.
pub fn copy_ops(ops: &[Op]) -> (copy: Vec<Op>)
    ensures
        same_ops(copy@, ops@),
{
    let mut copy: Vec<Op> = Vec::new();
    let mut i: usize = 0;
    while i < ops.len()
        invariant
            i <= ops@.len(),
            copy.len() == i,
            forall|j: int| 0 <= j < i ==> #[trigger] copy@[j].same(&ops@[j]),
        decreases ops@.len() - i,
    {
        copy.push(ops[i].clone());
        i = i + 1;
    }
    copy
}

/// The problem as column lists, the shape in which it is stored.
#[derive(Debug)]
pub struct ProblemJson {
    pub widths: Vec<i64>,
    pub heights: Vec<i64>,
    pub op_types: Vec<String>,
    pub inputs: Vec<Vec<usize>>,
    pub outputs: Vec<Vec<usize>>,
    pub base_costs: Vec<i64>,
    pub fast_memory_capacity: i64,
    pub slow_memory_bandwidth: i64,
    pub native_granularity: Vec<i64>,
}

/// `p` is the problem that the columns describe. Columns are read side by side, so a
/// column's surplus entries are dropped.
pub open spec fn reads_columns(p: Problem, json: ProblemJson) -> bool {
    &&& p.tensors@.len() == arith::least(json.widths@.len() as int, json.heights@.len() as int)
    &&& forall|i: int|
        0 <= i < p.tensors@.len() ==> (#[trigger] p.tensors@[i]).width == json.widths@[i] && p.tensors@[i].height
            == json.heights@[i]
    &&& p.ops@.len() == arith::least(
        arith::least(json.op_types@.len() as int, json.inputs@.len() as int),
        arith::least(json.outputs@.len() as int, json.base_costs@.len() as int),
    )
    &&& forall|i: int|
        0 <= i < p.ops@.len() ==> {
            let op = #[trigger] p.ops@[i];
            &&& op.op_type == kind_named(json.op_types@[i]@)
            &&& op.inputs@ == json.inputs@[i]@
            &&& op.outputs@ == json.outputs@[i]@
            &&& op.base_cost == json.base_costs@[i]
        }
    &&& p.fast_memory_capacity == json.fast_memory_capacity
    &&& p.slow_memory_bandwidth == json.slow_memory_bandwidth
    &&& p.native_granularity.width == if json.native_granularity@.len() > 0 { json.native_granularity@[0] } else { 1 }
    &&& p.native_granularity.height == if json.native_granularity@.len() > 1 { json.native_granularity@[1] } else { 1 }
    &&& p.native_granularity.depth == if json.native_granularity@.len() > 2 { json.native_granularity@[2] } else { 1 }
}

impl From<ProblemJson> for Problem {
    fn from(json: ProblemJson) -> (p: Self)
        ensures
            reads_columns(p, json),
    {
        let mut tensors: Vec<Tensor> = Vec::new();
        let num_tensors: usize = arith::least_count(json.widths.len(), json.heights.len());
        let mut i: usize = 0;
        while i < num_tensors
            invariant
                i <= num_tensors,
                num_tensors <= json.widths.len(),
                num_tensors <= json.heights.len(),
                tensors.len() == i,
                forall|k: int|
                    0 <= k < i ==> (#[trigger] tensors@[k]).width == json.widths@[k] && tensors@[k].height
                        == json.heights@[k],
            decreases num_tensors - i,
        {
            tensors.push(Tensor { width: json.widths[i], height: json.heights[i] });
            i = i + 1;
        }
        let num_ops: usize = arith::least_count(
            arith::least_count(json.op_types.len(), json.inputs.len()),
            arith::least_count(json.outputs.len(), json.base_costs.len()),
        );
        let mut ops: Vec<Op> = Vec::new();
        let mut j: usize = 0;
        while j < num_ops
            invariant
                j <= num_ops,
                num_ops <= json.op_types.len(),
                num_ops <= json.inputs.len(),
                num_ops <= json.outputs.len(),
                num_ops <= json.base_costs.len(),
                ops.len() == j,
                forall|i: int|
                    0 <= i < j ==> {
                        let op = #[trigger] ops@[i];
                        &&& op.op_type == if json.op_types@[i]@ == "MatMul"@ {
                            OpType::MatMul
                        } else {
                            OpType::Pointwise
                        }
                        &&& op.inputs@ == json.inputs@[i]@
                        &&& op.outputs@ == json.outputs@[i]@
                        &&& op.base_cost == json.base_costs@[i]
                    },
            decreases num_ops - j,
        {
            ops.push(
                Op {
                    op_type: OpType::parse(json.op_types[j].as_str()),
                    inputs: copy_ids(json.inputs[j].as_slice()),
                    outputs: copy_ids(json.outputs[j].as_slice()),
                    base_cost: json.base_costs[j],
                },
            );
            j = j + 1;
        }
        Problem {
            tensors,
            ops,
            fast_memory_capacity: json.fast_memory_capacity,
            slow_memory_bandwidth: json.slow_memory_bandwidth,
            native_granularity: Granularity::from_array(json.native_granularity.as_slice()),
        }
    }
}

impl vstd::std_specs::convert::FromSpecImpl<ProblemJson> for Problem {
    open spec fn obeys_from_spec() -> bool {
        false
    }

    open spec fn from_spec(json: ProblemJson) -> Self {
        arbitrary()
    }
}

impl ProblemJson {
    /// The columns list the problem, each tensor and each operation once.
    pub open spec fn lists(&self, p: Problem) -> bool {
        &&& self.widths@.len() == p.tensors@.len()
        &&& self.heights@.len() == p.tensors@.len()
        &&& forall|i: int|
            0 <= i < p.tensors@.len() ==> self.widths@[i] == (#[trigger] p.tensors@[i]).width && self.heights@[i]
                == p.tensors@[i].height
        &&& self.op_types@.len() == p.ops@.len()
        &&& self.inputs@.len() == p.ops@.len()
        &&& self.outputs@.len() == p.ops@.len()
        &&& self.base_costs@.len() == p.ops@.len()
        &&& forall|i: int|
            0 <= i < p.ops@.len() ==> {
                let op = #[trigger] p.ops@[i];
                &&& self.op_types@[i]@ == op.op_type.name()
                &&& self.inputs@[i]@ == op.inputs@
                &&& self.outputs@[i]@ == op.outputs@
                &&& self.base_costs@[i] == op.base_cost
            }
        &&& self.fast_memory_capacity == p.fast_memory_capacity
        &&& self.slow_memory_bandwidth == p.slow_memory_bandwidth
        &&& self.native_granularity@ == seq![
            p.native_granularity.width,
            p.native_granularity.height,
            p.native_granularity.depth,
        ]
    }
}

impl From<&Problem> for ProblemJson {
    /// Writes a problem out as columns.
    fn from(problem: &Problem) -> (json: Self)
        ensures
            json.lists(*problem),
            reads_columns(*problem, json),
    {
        let mut widths: Vec<i64> = Vec::new();
        let mut heights: Vec<i64> = Vec::new();
        let mut i: usize = 0;
        while i < problem.tensors.len()
            invariant
                i <= problem.tensors.len(),
                widths.len() == i,
                heights.len() == i,
                forall|k: int|
                    0 <= k < i ==> widths@[k] == (#[trigger] problem.tensors@[k]).width && heights@[k]
                        == problem.tensors@[k].height,
            decreases problem.tensors.len() - i,
        {
            widths.push(problem.tensors[i].width);
            heights.push(problem.tensors[i].height);
            i = i + 1;
        }
        let mut op_types: Vec<String> = Vec::new();
        let mut inputs: Vec<Vec<usize>> = Vec::new();
        let mut outputs: Vec<Vec<usize>> = Vec::new();
        let mut base_costs: Vec<i64> = Vec::new();
        let mut j: usize = 0;
        while j < problem.ops.len()
            invariant
                j <= problem.ops.len(),
                op_types.len() == j,
                inputs.len() == j,
                outputs.len() == j,
                base_costs.len() == j,
                forall|k: int|
                    0 <= k < j ==> {
                        let op = #[trigger] problem.ops@[k];
                        &&& op_types@[k]@ == op.op_type.name()
                        &&& inputs@[k]@ == op.inputs@
                        &&& outputs@[k]@ == op.outputs@
                        &&& base_costs@[k] == op.base_cost
                    },
            decreases problem.ops.len() - j,
        {
            op_types.push(problem.ops[j].op_type.as_str().to_owned());
            inputs.push(copy_ids(problem.ops[j].inputs.as_slice()));
            outputs.push(copy_ids(problem.ops[j].outputs.as_slice()));
            base_costs.push(problem.ops[j].base_cost);
            j = j + 1;
        }
        let g: Granularity = problem.native_granularity;
        let mut native_granularity: Vec<i64> = Vec::new();
        native_granularity.push(g.width);
        native_granularity.push(g.height);
        native_granularity.push(g.depth);
        let json: ProblemJson = ProblemJson {
            widths,
            heights,
            op_types,
            inputs,
            outputs,
            base_costs,
            fast_memory_capacity: problem.fast_memory_capacity,
            slow_memory_bandwidth: problem.slow_memory_bandwidth,
            native_granularity,
        };
        proof {
            assert(json.native_granularity@ =~= seq![g.width, g.height, g.depth]);
            assert forall|i: int| 0 <= i < problem.ops@.len() implies (#[trigger] problem.ops@[i]).op_type == kind_named(
                json.op_types@[i]@,
            ) by {
                names_are_read_back(problem.ops@[i].op_type);
            }
        }
        json
    }
}

impl vstd::std_specs::convert::FromSpecImpl<&Problem> for ProblemJson {
    open spec fn obeys_from_spec() -> bool {
        false
    }

    open spec fn from_spec(problem: &Problem) -> Self {
        arbitrary()
    }
}

/// Reading back the columns of a problem gives the same problem.
pub proof fn problems_are_read_back(p: Problem, json: ProblemJson, back: Problem)
    requires
        json.lists(p),
        reads_columns(back, json),
    ensures
        back.tensors@ == p.tensors@,
        same_ops(back.ops@, p.ops@),
        back.fast_memory_capacity == p.fast_memory_capacity,
        back.slow_memory_bandwidth == p.slow_memory_bandwidth,
        back.native_granularity == p.native_granularity,
{
    assert forall|i: int| 0 <= i < p.tensors@.len() implies back.tensors@[i] == #[trigger] p.tensors@[i] by {
        assert(back.tensors@[i].width == json.widths@[i]);
    }
    assert(back.tensors@ =~= p.tensors@);
    assert forall|i: int| 0 <= i < back.ops@.len() implies #[trigger] back.ops@[i].same(&p.ops@[i]) by {
        let op = p.ops@[i];
        names_are_read_back(op.op_type);
        assert(back.ops@[i].op_type == kind_named(json.op_types@[i]@));
    }
}

/// A fused group of operations that run together.
#[derive(Debug, Clone, PartialEq)]
pub struct Subgraph {
    pub ops: Vec<OpId>,
    /// Tensors that stay in fast memory when the group has run.
    pub tensors_to_retain: Vec<TensorId>,
    pub granularity: GranularityOutput,
    /// The order in which tiles are visited, if it is not the plain one.
    pub traversal_order: Option<TraversalOrder>,
}

/// A granularity as it is written out.
#[derive(Debug, Clone, Copy, PartialEq, Eq, Structural)]
pub struct GranularityOutput {
    pub w: Width,
    pub h: Height,
    pub k: Option<Depth>,
}

/// A split of 1 need not be written out.
pub fn is_one(k: &Option<Depth>) -> (yes: bool)
    ensures
        yes == (*k is None || *k == Some(1i64)),
{
    match k {
        None => true,
        Some(v) => *v == 1,
    }
}

/// The operations take in and put out only ids below `n`.
pub open spec fn ids_below(ops: Seq<Op>, n: nat) -> bool {
    &&& forall|i: int, j: int|
        0 <= i < ops.len() && 0 <= j < ops[i].inputs@.len() ==> (#[trigger] ops[i].inputs@[j]) < n
    &&& forall|i: int, j: int|
        0 <= i < ops.len() && 0 <= j < ops[i].outputs@.len() ==> (#[trigger] ops[i].outputs@[j]) < n
}

/// How a granularity is written out: a split of 1 or less is left out.
pub open spec fn written(g: Granularity) -> GranularityOutput {
    GranularityOutput {
        w: g.width,
        h: g.height,
        k: if g.depth > 1 {
            Some(g.depth)
        } else {
            None
        },
    }
}

/// The granularity that was written out; a split that is left out is 1.
pub open spec fn read_back(out: GranularityOutput) -> Granularity {
    Granularity {
        width: out.w,
        height: out.h,
        depth: match out.k {
            Some(k) => k,
            None => 1,
        },
    }
}

impl From<&Granularity> for GranularityOutput {
    fn from(g: &Granularity) -> (out: Self) {
        GranularityOutput {
            w: g.width,
            h: g.height,
            k: if g.depth > 1 {
                Some(g.depth)
            } else {
                None
            },
        }
    }
}

impl vstd::std_specs::convert::FromSpecImpl<&Granularity> for GranularityOutput {
    open spec fn obeys_from_spec() -> bool {
        true
    }

    open spec fn from_spec(g: &Granularity) -> Self {
        written(*g)
    }
}

/// The complete schedule.
#[derive(Debug, Clone)]
pub struct Solution {
    pub subgraphs: Vec<SubgraphOutput>,
}

/// A subgraph as it is written out.
#[derive(Debug, Clone)]
pub struct SubgraphOutput {
    pub ops: Vec<OpId>,
    pub tensors_to_retain: Vec<TensorId>,
    pub granularity: GranularityOutput,
    pub traversal_order: Option<TraversalOrder>,
}

/// The lists are both missing or hold the same entries.
pub open spec fn same_traversal(a: Option<TraversalOrder>, b: Option<TraversalOrder>) -> bool {
    match (a, b) {
        (None, None) => true,
        (Some(x), Some(y)) => x@ == y@,
        _ => false,
    }
}

impl From<&Subgraph> for SubgraphOutput {
    fn from(sg: &Subgraph) -> (out: Self)
        ensures
            out.ops@ == sg.ops@,
            out.tensors_to_retain@ == sg.tensors_to_retain@,
            out.granularity == sg.granularity,
            same_traversal(out.traversal_order, sg.traversal_order),
    {
        SubgraphOutput {
            ops: copy_ids(sg.ops.as_slice()),
            tensors_to_retain: copy_ids(sg.tensors_to_retain.as_slice()),
            granularity: sg.granularity,
            traversal_order: match &sg.traversal_order {
                None => None,
                Some(order) => Some(order.clone()),
            },
        }
    }
}

impl vstd::std_specs::convert::FromSpecImpl<&Subgraph> for SubgraphOutput {
    open spec fn obeys_from_spec() -> bool {
        false
    }

    open spec fn from_spec(sg: &Subgraph) -> Self {
        arbitrary()
    }
}

/// What the operations say about one tensor.
#[derive(Debug)]
pub struct TensorMeta {
    /// The operation that produces the tensor, if any.
    pub producer: Option<OpId>,
    /// The operations that consume the tensor.
    pub consumers: Vec<OpId>,
    /// The tensor has no producer.
    pub is_input: bool,
    /// The tensor has no consumer.
    pub is_output: bool,
}

/// The last of the first `m` operations that puts out tensor `t`.
pub open spec fn producer_of(ops: Seq<Op>, t: usize, m: nat) -> Option<usize>
    decreases m,
{
    if m == 0 {
        None
    } else if ops[m - 1].outputs@.contains(t) {
        Some((m - 1) as usize)
    } else {
        producer_of(ops, t, (m - 1) as nat)
    }
}

/// The operations among the first `m` that take in tensor `t`, in order, once for each mention.
pub open spec fn consumers_of(ops: Seq<Op>, t: usize, m: nat) -> Seq<usize>
    decreases m,
{
    if m == 0 {
        Seq::empty()
    } else {
        consumers_of(ops, t, (m - 1) as nat) + Seq::new(
            graph::occurrences(ops[m - 1].inputs@, t),
            |i: int| (m - 1) as usize,
        )
    }
}

impl TensorMeta {
    /// This is what the operations say about tensor `t`.
    pub open spec fn describes(&self, ops: Seq<Op>, t: usize) -> bool {
        &&& self.producer == producer_of(ops, t, ops.len())
        &&& self.consumers@ == consumers_of(ops, t, ops.len())
        &&& self.is_input == (self.producer is None)
        &&& self.is_output == (self.consumers@.len() == 0)
    }
}

impl Clone for TensorMeta {
    fn clone(&self) -> (copy: Self)
        ensures
            copy.producer == self.producer,
            copy.consumers@ == self.consumers@,
            copy.is_input == self.is_input,
            copy.is_output == self.is_output,
    {
        TensorMeta {
            producer: self.producer,
            consumers: copy_ids(self.consumers.as_slice()),
            is_input: self.is_input,
            is_output: self.is_output,
        }
    }
}

impl Problem {
    /// `meta` describes each tensor of the problem.
    pub open spec fn has_meta(&self, meta: Seq<TensorMeta>) -> bool {
        &&& meta.len() == self.tensors@.len()
        &&& forall|t: usize| t < meta.len() ==> (#[trigger] meta[t as int]).describes(self.ops@, t)
    }

    /// Finds the producer and the consumers of each tensor. Ids beyond the tensors are passed over.
    pub fn build_tensor_meta(&self) -> (meta: Vec<TensorMeta>)
        ensures
            self.has_meta(meta@),
    {
        let n: usize = self.tensors.len();
        let mut meta: Vec<TensorMeta> = Vec::new();
        let mut i: usize = 0;
        while i < n
            invariant
                i <= n,
                meta.len() == i,
                forall|t: int|
                    0 <= t < i ==> {
                        let m = #[trigger] meta@[t];
                        &&& m.producer is None
                        &&& m.consumers@ == Seq::<usize>::empty()
                        &&& m.is_input
                        &&& m.is_output
                    },
            decreases n - i,
        {
            meta.push(TensorMeta { producer: None, consumers: Vec::new(), is_input: true, is_output: true });
            i = i + 1;
        }
        let mut op_id: usize = 0;
        while op_id < self.ops.len()
            invariant
                op_id <= self.ops.len(),
                n == self.tensors.len(),
                meta.len() == n,
                forall|t: usize|
                    t < n ==> {
                        let m = #[trigger] meta@[t as int];
                        &&& m.producer == producer_of(self.ops@, t, op_id as nat)
                        &&& m.consumers@ == consumers_of(self.ops@, t, op_id as nat)
                        &&& m.is_input == (m.producer is None)
                        &&& m.is_output == (m.consumers@.len() == 0)
                    },
            decreases self.ops.len() - op_id,
        {
            let op: &Op = &self.ops[op_id];
            let ghost before = meta@;
            let ghost outs = op.outputs@;
            let ghost ins = op.inputs@;
            let mut k: usize = 0;
            while k < op.outputs.len()
                invariant
                    k <= op.outputs.len(),
                    outs == op.outputs@,
                    meta.len() == n,
                    before.len() == n,
                    forall|t: usize|
                        t < n ==> {
                            let m = #[trigger] meta@[t as int];
                            &&& m.producer == if outs.take(k as int).contains(t) {
                                Some(op_id)
                            } else {
                                before[t as int].producer
                            }
                            &&& m.is_input == if outs.take(k as int).contains(t) {
                                false
                            } else {
                                before[t as int].is_input
                            }
                            &&& m.consumers@ == before[t as int].consumers@
                            &&& m.is_output == before[t as int].is_output
                        },
                decreases op.outputs.len() - k,
            {
                let out_id: usize = op.outputs[k];
                proof {
                    lemma_take_contains(outs, k as int);
                }
                if out_id < n {
                    meta[out_id].producer = Some(op_id);
                    meta[out_id].is_input = false;
                }
                k = k + 1;
            }
            let ghost mid = meta@;
            let mut j: usize = 0;
            while j < op.inputs.len()
                invariant
                    j <= op.inputs.len(),
                    ins == op.inputs@,
                    meta.len() == n,
                    mid.len() == n,
                    forall|t: usize|
                        t < n ==> {
                            let m = #[trigger] meta@[t as int];
                            let seen = graph::occurrences(ins.take(j as int), t);
                            &&& m.producer == mid[t as int].producer
                            &&& m.is_input == mid[t as int].is_input
                            &&& m.consumers@ == mid[t as int].consumers@ + Seq::new(seen, |i: int| op_id)
                            &&& m.is_output == (mid[t as int].is_output && seen == 0)
                        },
                decreases op.inputs.len() - j,
            {
                let in_id: usize = op.inputs[j];
                proof {
                    assert(ins.take(j + 1).drop_last() =~= ins.take(j as int));
                }
                if in_id < n {
                    let ghost seen = graph::occurrences(ins.take(j as int), in_id);
                    meta[in_id].consumers.push(op_id);
                    meta[in_id].is_output = false;
                    proof {
                        assert(mid[in_id as int].consumers@ + Seq::new(seen + 1, |i: int| op_id) =~= (
                        mid[in_id as int].consumers@ + Seq::new(seen, |i: int| op_id)).push(op_id));
                    }
                }
                j = j + 1;
            }
            proof {
                assert(outs.take(outs.len() as int) =~= outs);
                assert(ins.take(ins.len() as int) =~= ins);
                assert forall|t: usize| t < n implies {
                    let m = #[trigger] meta@[t as int];
                    &&& m.producer == producer_of(self.ops@, t, (op_id + 1) as nat)
                    &&& m.consumers@ == consumers_of(self.ops@, t, (op_id + 1) as nat)
                    &&& m.is_input == (m.producer is None)
                    &&& m.is_output == (m.consumers@.len() == 0)
                } by {
                    assert(before[t as int].consumers@ == consumers_of(self.ops@, t, op_id as nat));
                    assert(mid[t as int].consumers@ == before[t as int].consumers@);
                    assert(meta@[t as int].consumers@ =~= consumers_of(self.ops@, t, (op_id + 1) as nat));
                }
            }
            op_id = op_id + 1;
        }
        meta
    }

    /// More than one operation takes in tensor `t`.
    pub open spec fn is_shared(&self, t: TensorId) -> bool {
        exists|a: int, b: int|
            #![trigger self.ops@[a], self.ops@[b]]
            0 <= a < b < self.ops@.len() && self.ops@[a].inputs@.contains(t) && self.ops@[b].inputs@.contains(t)
    }

    /// The tensors that more than one operation takes in.
    pub fn find_shared_tensors(&self) -> (shared: HashSet<TensorId>)
        ensures
            forall|t: usize| #[trigger] shared@.contains(t) <==> t < self.tensors@.len() && self.is_shared(t),
    {
        broadcast use vstd::std_specs::hash::group_hash_axioms;

        let meta: Vec<TensorMeta> = self.build_tensor_meta();
        let mut shared: HashSet<TensorId> = HashSet::new();
        let mut t: usize = 0;
        while t < meta.len()
            invariant
                t <= meta.len(),
                self.has_meta(meta@),
                forall|x: usize| #[trigger] shared@.contains(x) <==> x < t && self.is_shared(x),
            decreases meta.len() - t,
        {
            assert(meta@[t as int].describes(self.ops@, t));
            let differ: bool = holds_two(&meta[t].consumers);
            proof {
                self.lemma_shared(t, meta@[t as int].consumers@);
            }
            if differ {
                shared.insert(t);
            }
            t = t + 1;
        }
        shared
    }

    proof fn lemma_shared(&self, t: TensorId, users: Seq<OpId>)
        requires
            users == consumers_of(self.ops@, t, self.ops@.len()),
        ensures
            self.is_shared(t) == exists|i: int| 0 <= i < users.len() && #[trigger] users[i] != users[0],
    {
        let n = self.ops@.len();
        assert(n == self.ops.len());
        if self.is_shared(t) {
            let (a, b) = choose|a: int, b: int|
                #![trigger self.ops@[a], self.ops@[b]]
                0 <= a < b < self.ops@.len() && self.ops@[a].inputs@.contains(t) && self.ops@[b].inputs@.contains(t);
            meta_matches_ops(self.ops@, t, n, a as usize);
            meta_matches_ops(self.ops@, t, n, b as usize);
            let i = choose|i: int| 0 <= i < users.len() && users[i] == a as usize;
            let j = choose|j: int| 0 <= j < users.len() && users[j] == b as usize;
            assert(users[i] != users[0] || users[j] != users[0]);
        }
        if exists|i: int| 0 <= i < users.len() && #[trigger] users[i] != users[0] {
            let i = choose|i: int| 0 <= i < users.len() && #[trigger] users[i] != users[0];
            assert(users.contains(users[i]) && users.contains(users[0]));
            meta_matches_ops(self.ops@, t, n, users[i]);
            meta_matches_ops(self.ops@, t, n, users[0]);
            let a = users[i] as int;
            let b = users[0] as int;
            if a < b {
                assert(self.ops@[a].inputs@.contains(t) && self.ops@[b].inputs@.contains(t));
            } else {
                assert(self.ops@[b].inputs@.contains(t) && self.ops@[a].inputs@.contains(t));
            }
        }
    }
}

/// Whether the list holds two different ids.
fn holds_two(listed: &Vec<usize>) -> (yes: bool)
    ensures
        yes == exists|i: int| 0 <= i < listed@.len() && #[trigger] listed@[i] != listed@[0],
{
    let mut i: usize = 0;
    while i < listed.len()
        invariant
            i <= listed.len(),
            forall|j: int| 0 <= j < i ==> #[trigger] listed@[j] == listed@[0],
        decreases listed.len() - i,
    {
        if listed[i] != listed[0] {
            assert(listed@[i as int] != listed@[0]);
            return true;
        }
        i = i + 1;
    }
    false
}

/// What a longer prefix holds.
pub proof fn lemma_take_contains(s: Seq<usize>, k: int)
    requires
        0 <= k < s.len(),
    ensures
        forall|x: usize| #[trigger] s.take(k + 1).contains(x) <==> s.take(k).contains(x) || x == s[k],
{
    let a = s.take(k);
    let b = s.take(k + 1);
    assert forall|x: usize| #[trigger] b.contains(x) <==> a.contains(x) || x == s[k] by {
        if a.contains(x) {
            let i = choose|i: int| 0 <= i < a.len() && a[i] == x;
            assert(b[i] == x);
        }
        if b.contains(x) {
            let i = choose|i: int| 0 <= i < b.len() && b[i] == x;
            if i < k {
                assert(a[i] == x);
            }
        }
        assert(b[k] == s[k]);
    }
}

/// The consumers of a tensor are exactly the operations that mention it as an input,
/// and its producer mentions it as an output.
pub proof fn meta_matches_ops(ops: Seq<Op>, t: usize, m: nat, op: usize)
    requires
        m <= ops.len() <= usize::MAX,
    ensures
        consumers_of(ops, t, m).contains(op) <==> op < m && ops[op as int].inputs@.contains(t),
        producer_of(ops, t, m) matches Some(p) ==> p < m && ops[p as int].outputs@.contains(t),
        producer_of(ops, t, m) is None && op < m ==> !ops[op as int].outputs@.contains(t),
    decreases m,
{
    if m > 0 {
        meta_matches_ops(ops, t, (m - 1) as nat, op);
        let rest = consumers_of(ops, t, (m - 1) as nat);
        let all = consumers_of(ops, t, m);
        let seen = graph::occurrences(ops[m - 1].inputs@, t);
        graph::lemma_occurrences_zero(ops[m - 1].inputs@, t);
        if all.contains(op) {
            let i = choose|i: int| 0 <= i < all.len() && all[i] == op;
            if i < rest.len() {
                assert(rest[i] == op);
            }
        }
        if op < m && ops[op as int].inputs@.contains(t) {
            if op == m - 1 {
                assert(all[rest.len() as int] == op);
            } else {
                let i = choose|i: int| 0 <= i < rest.len() && rest[i] == op;
                assert(all[i] == op);
            }
        }
    }
}

} // verus!
