//! The data model of the intermediate representation consumed by the
//! generator: structural type descriptors and per-function instruction
//! graphs, both arena-allocated with stable integer handles. Descriptors
//! and nodes are produced upstream and are read-only here.

use vstd::prelude::*;

verus! {

/// The supported scalar element kinds.
#[derive(Clone, Copy, Debug, PartialEq, Eq, Structural)]
pub enum ScalarKind {
    Bool,
    Int16,
    Int32,
    Int64,
    Uint16,
    Uint32,
    Uint64,
    Float16,
    Float32,
}

/// One structural type descriptor. Aggregates refer to other descriptors
/// by their arena handle.
pub enum TypeDesc {
    /// The absent result type; generated as `void`.
    Void,
    Scalar { kind: ScalarKind },
    /// Element kind plus dimension.
    Vector { kind: ScalarKind, dim: u32 },
    /// Square and float-only; any other element kind is rejected.
    Matrix { kind: ScalarKind, dim: u32 },
    /// Element descriptor handle plus length.
    Array { elem: usize, len: u64 },
    /// Ordered field descriptor handles plus alignment.
    Struct { fields: Vec<usize>, alignment: u64 },
    /// A descriptor shape outside the supported set.
    Opaque,
}

/// The type descriptor arena. Descriptor identity is the index into
/// `types`; aggregates are built bottom-up, so every descriptor refers
/// only to descriptors with strictly smaller handles.
pub struct TypeArena {
    pub types: Vec<TypeDesc>,
}

impl TypeArena {
    /// The descriptor at `i` refers only to earlier descriptors.
    pub open spec fn wf_at(&self, i: int) -> bool {
        match self.types@[i] {
            TypeDesc::Array { elem, len } => elem < i,
            TypeDesc::Struct { fields, alignment } => forall|k: int|
                0 <= k < fields@.len() ==> #[trigger] fields@[k] < i,
            _ => true,
        }
    }

    pub open spec fn wf(&self) -> bool {
        forall|i: int| 0 <= i < self.types@.len() ==> #[trigger] self.wf_at(i)
    }

    /// Decides well-formedness, so that an unverified caller can test it
    /// before handing the arena to the generator.
    pub fn check_wf(&self) -> (r: bool)
        ensures
            r == self.wf(),
    {
        let n = self.types.len();
        let mut i: usize = 0;
        while i < n
            invariant
                i <= n,
                n == self.types@.len(),
                forall|j: int| 0 <= j < i ==> #[trigger] self.wf_at(j),
            decreases n - i,
        {
            let ok = match &self.types[i] {
                TypeDesc::Array { elem, len } => *elem < i,
                TypeDesc::Struct { fields, alignment } => {
                    let m = fields.len();
                    let mut k: usize = 0;
                    let mut all = true;
                    while k < m
                        invariant
                            k <= m,
                            m == fields@.len(),
                            all == forall|q: int| 0 <= q < k ==> #[trigger] fields@[q] < i,
                        decreases m - k,
                    {
                        if fields[k] >= i {
                            all = false;
                        }
                        k = k + 1;
                    }
                    all
                },
                _ => true,
            };
            if !ok {
                assert(!self.wf_at(i as int));
                return false;
            }
            assert(self.wf_at(i as int));
            i = i + 1;
        }
        true
    }
}

/// One incoming edge of a phi node: the predecessor block handle and the
/// value flowing in from it.
#[derive(Clone, Copy, Debug, PartialEq, Eq, Structural)]
pub struct PhiIncoming {
    pub block: usize,
    pub value: usize,
}

/// One case of a switch instruction: the case value and its block handle.
#[derive(Clone, Copy, Debug, PartialEq, Eq, Structural)]
pub struct SwitchCase {
    pub value: i32,
    pub block: usize,
}

/// The closed instruction set. Control instructions carry their nested
/// block handles; value-producing instructions carry their tag and, for
/// constants, the immediate payload.
pub enum Instruction {
    Buffer,
    BindlessArray,
    Texture2d,
    Texture3d,
    Accel,
    Shared,
    Uniform,
    Local,
    Argument,
    /// An immediate; its payload is readable at generation time, e.g. as a
    /// struct field ordinal inside an access chain.
    Constant { value: u64 },
    Call,
    Phi { incomings: Vec<PhiIncoming> },
    If { true_branch: usize, false_branch: usize },
    Switch { default: usize, cases: Vec<SwitchCase> },
    GenericLoop { prepare: usize, body: usize, update: usize },
    RayQuery { on_triangle_hit: usize, on_procedural_hit: usize },
    FwdAutodiff { body: usize },
    RevAutodiff { body: usize },
}

impl Instruction {
    /// The fixed list of instruction kinds that bind a generated variable.
    pub open spec fn is_value_kind(&self) -> bool {
        match *self {
            Instruction::Buffer => true,
            Instruction::BindlessArray => true,
            Instruction::Texture2d => true,
            Instruction::Texture3d => true,
            Instruction::Accel => true,
            Instruction::Shared => true,
            Instruction::Uniform => true,
            Instruction::Local => true,
            Instruction::Argument => true,
            Instruction::Constant { value } => true,
            Instruction::Call => true,
            Instruction::Phi { incomings } => true,
            _ => false,
        }
    }
}

/// One value-producing instruction reference: its instruction and its
/// static type (a `TypeArena` handle).
pub struct Node {
    pub inst: Instruction,
    pub ty: usize,
}

/// One basic block: the explicit phi sub-list, then the ordered
/// instruction sequence. Both lists hold node handles.
pub struct BasicBlockData {
    pub phis: Vec<usize>,
    pub insts: Vec<usize>,
}

/// One function's instruction graph: a node arena and a block arena.
/// Nested blocks of structured control flow carry strictly larger block
/// handles than the block that contains the control instruction.
pub struct IrFunction {
    pub nodes: Vec<Node>,
    pub blocks: Vec<BasicBlockData>,
}

} // verus!
