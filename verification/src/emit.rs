//! Per-function translation: variable binding with one global index
//! counter, nested-aggregate access-chain construction, atomic-operation
//! expansion, and the whole-compilation-unit emission state shared across
//! functions.

use vstd::prelude::*;

verus! {

use vstd::string::StringExecFns;
use vstd::slice::slice_subrange;
use crate::CodegenError;
use crate::ir::Instruction;
use crate::ir::IrFunction;
use crate::ir::TypeDesc;
use crate::ir::TypeArena;
use crate::text::dec_digits;
use crate::text::dec_u64;
use crate::text::indent_text;
use crate::types::TypeRegistry;
use crate::types::name_of;
use crate::types::views;

// ---------------------------------------------------------------------------
// Binding tables
// ---------------------------------------------------------------------------

pub open spec fn distinct(s: Seq<usize>) -> bool {
    forall|i: int, j: int| 0 <= i < j < s.len() ==> s[i] != s[j]
}

/// The first position of `v` in `s`; the length if absent.
pub open spec fn first_index(s: Seq<usize>, v: usize) -> int
    decreases s.len(),
{
    if s.len() == 0 {
        0
    } else if s[0] == v {
        0
    } else {
        1 + first_index(s.drop_first(), v)
    }
}

/// The table after requesting a binding for `node`.
pub open spec fn bind(s: Seq<usize>, node: usize) -> Seq<usize> {
    if s.contains(node) {
        s
    } else {
        s.push(node)
    }
}

/// The index that a binding request for `node` yields.
pub open spec fn bind_index(s: Seq<usize>, node: usize) -> int {
    if s.contains(node) {
        first_index(s, node)
    } else {
        s.len() as int
    }
}

proof fn lemma_first_index_at(s: Seq<usize>, v: usize, i: int)
    requires
        0 <= i < s.len(),
        s[i] == v,
        forall|k: int| 0 <= k < i ==> s[k] != v,
    ensures
        s.contains(v),
        first_index(s, v) == i,
    decreases i,
{
    assert(s.contains(v));
    if i == 0 {
    } else {
        assert(s[0] != v);
        assert(s.drop_first()[i - 1] == v);
        assert forall|k: int| 0 <= k < i - 1 implies s.drop_first()[k] != v by {
            assert(s.drop_first()[k] == s[k + 1]);
        }
        lemma_first_index_at(s.drop_first(), v, i - 1);
    }
}

proof fn lemma_first_index_push(s: Seq<usize>, v: usize, x: usize)
    requires
        s.contains(v),
    ensures
        s.push(x).contains(v),
        first_index(s.push(x), v) == first_index(s, v),
    decreases s.len(),
{
    let w = choose|w: int| 0 <= w < s.len() && s[w] == v;
    assert(s.push(x)[w] == v);
    if s[0] == v {
        assert(s.push(x)[0] == v);
    } else {
        assert(s.push(x)[0] == s[0]);
        assert(s.drop_first().contains(v)) by {
            assert(s.drop_first()[w - 1] == v);
        }
        lemma_first_index_push(s.drop_first(), v, x);
        assert(s.push(x).drop_first() =~= s.drop_first().push(x));
    }
}

/// Naming stability: a node already bound keeps its index, whatever is
/// bound afterwards.
pub proof fn lemma_bind_index_stable(s: Seq<usize>, n1: usize, n2: usize)
    requires
        s.contains(n1),
    ensures
        bind(s, n1) == s,
        bind(s, n2).contains(n1),
        bind_index(bind(s, n2), n1) == bind_index(s, n1),
{
    if !s.contains(n2) {
        lemma_first_index_push(s, n1, n2);
    }
}

/// Fresh nodes bound in succession get strictly increasing global indices.
pub proof fn lemma_bind_index_increasing(s: Seq<usize>, n1: usize, n2: usize)
    requires
        !s.contains(n1),
        !s.contains(n2),
        n1 != n2,
    ensures
        bind_index(s, n1) == s.len(),
        bind_index(bind(s, n1), n2) == s.len() + 1,
        bind_index(bind(s, n1), n2) > bind_index(s, n1),
{
    assert(!s.push(n1).contains(n2)) by {
        if s.push(n1).contains(n2) {
            let w = choose|w: int| 0 <= w < s.push(n1).len() && s.push(n1)[w] == n2;
            if w < s.len() {
                assert(s[w] == n2);
            }
        }
    }
}

/// Binds `node` in the table: an already-bound node keeps its position,
/// a fresh node is appended. Returns the node's index.
fn intern(table: &mut Vec<usize>, node: usize) -> (r: usize)
    requires
        distinct(old(table)@),
        old(table)@.len() < usize::MAX,
    ensures
        distinct(final(table)@),
        final(table)@ == bind(old(table)@, node),
        r == bind_index(old(table)@, node),
        r <= old(table)@.len(),
{
    let n = table.len();
    let mut i: usize = 0;
    while i < n
        invariant
            i <= n,
            n == table@.len(),
            table@ == old(table)@,
            distinct(table@),
            forall|k: int| 0 <= k < i ==> table@[k] != node,
        decreases n - i,
    {
        if table[i] == node {
            proof {
                lemma_first_index_at(table@, node, i as int);
            }
            return i;
        }
        i = i + 1;
    }
    proof {
        assert(!table@.contains(node)) by {
            if table@.contains(node) {
                let w = choose|w: int| 0 <= w < table@.len() && table@[w] == node;
                assert(table@[w] != node);
            }
        }
    }
    table.push(node);
    proof {
        assert forall|a: int, b: int| 0 <= a < b < table@.len() implies table@[a] != table@[b] by {
            if b < table@.len() - 1 {
                assert(table@[a] == old(table)@[a] && table@[b] == old(table)@[b]);
            } else {
                assert(table@[b] == node);
                assert(table@[a] == old(table)@[a]);
                if old(table)@[a] == node {
                    assert(old(table)@.contains(node));
                }
            }
        }
    }
    n
}

// ---------------------------------------------------------------------------
// Variable names
// ---------------------------------------------------------------------------

/// The tag of each value-producing instruction kind.
pub open spec fn kind_tag(inst: Instruction) -> Seq<char> {
    match inst {
        Instruction::Buffer => "b"@,
        Instruction::BindlessArray => "bl"@,
        Instruction::Texture2d => "t2d"@,
        Instruction::Texture3d => "t3d"@,
        Instruction::Accel => "a"@,
        Instruction::Shared => "s"@,
        Instruction::Uniform => "u"@,
        Instruction::Local => "v"@,
        Instruction::Argument => "arg"@,
        Instruction::Constant { value } => "c"@,
        Instruction::Call => "f"@,
        Instruction::Phi { incomings } => "phi"@,
        _ => Seq::empty(),
    }
}

/// The generated variable name: kind tag plus the global binding index.
pub open spec fn node_var(inst: Instruction, idx: int) -> Seq<char> {
    kind_tag(inst) + dec_digits(idx as nat)
}

fn tag_str(inst: &Instruction) -> (r: &'static str)
    requires
        inst.is_value_kind(),
    ensures
        r@ == kind_tag(*inst),
{
    match inst {
        Instruction::Buffer => "b",
        Instruction::BindlessArray => "bl",
        Instruction::Texture2d => "t2d",
        Instruction::Texture3d => "t3d",
        Instruction::Accel => "a",
        Instruction::Shared => "s",
        Instruction::Uniform => "u",
        Instruction::Local => "v",
        Instruction::Argument => "arg",
        Instruction::Constant { value } => "c",
        Instruction::Call => "f",
        Instruction::Phi { incomings } => "phi",
        _ => "b",
    }
}

// ---------------------------------------------------------------------------
// Access chains
// ---------------------------------------------------------------------------

/// The access-chain expression and binding table after consuming the
/// indices from position `k` onward, with `var` addressing a value of
/// descriptor `ty`. A vector or matrix subscript must be last; an array
/// subscript advances to the element type; a struct takes a
/// compile-time-known field ordinal; anything else malforms the chain.
pub open spec fn chain_spec(
    types: Seq<TypeDesc>,
    f: IrFunction,
    var: Seq<char>,
    ty: int,
    indices: Seq<usize>,
    k: int,
    binds: Seq<usize>,
) -> Result<(Seq<char>, Seq<usize>), CodegenError>
    decreases indices.len() - k,
{
    if k >= indices.len() {
        Ok((var, binds))
    } else if k < 0 || !(0 <= ty < types.len()) {
        Err(CodegenError::MalformedAccessChain)
    } else {
        let idx = indices[k];
        match types[ty] {
            TypeDesc::Vector { kind, dim } => if k == indices.len() - 1 {
                Ok(
                    (
                        var + "["@ + node_var(f.nodes@[idx as int].inst, bind_index(binds, idx))
                            + "]"@,
                        bind(binds, idx),
                    ),
                )
            } else {
                Err(CodegenError::MalformedAccessChain)
            },
            TypeDesc::Matrix { kind, dim } => if k == indices.len() - 1 {
                Ok(
                    (
                        var + "["@ + node_var(f.nodes@[idx as int].inst, bind_index(binds, idx))
                            + "]"@,
                        bind(binds, idx),
                    ),
                )
            } else {
                Err(CodegenError::MalformedAccessChain)
            },
            TypeDesc::Array { elem, len } => chain_spec(
                types,
                f,
                var + "["@ + node_var(f.nodes@[idx as int].inst, bind_index(binds, idx)) + "]"@,
                elem as int,
                indices,
                k + 1,
                bind(binds, idx),
            ),
            TypeDesc::Struct { fields, alignment } => match f.nodes@[idx as int].inst {
                Instruction::Constant { value } => if value < fields@.len() {
                    chain_spec(
                        types,
                        f,
                        var + ".f"@ + dec_digits(value as nat),
                        fields@[value as int] as int,
                        indices,
                        k + 1,
                        binds,
                    )
                } else {
                    Err(CodegenError::MalformedAccessChain)
                },
                _ => Err(CodegenError::MalformedAccessChain),
            },
            _ => Err(CodegenError::MalformedAccessChain),
        }
    }
}

// ---------------------------------------------------------------------------
// The whole-compilation-unit emission state
// ---------------------------------------------------------------------------

/// What an index table holds: its key-value pairs, in insertion order.
pub uninterp spec fn table_entries(m: indexmap::IndexMap<usize, usize>) -> Seq<(usize, usize)>;

/// Relies on indexmap::IndexMap::new: creates an empty map.
#[verifier::external_body]
fn table_new() -> (r: indexmap::IndexMap<usize, usize>)
    ensures
        table_entries(r) == Seq::<(usize, usize)>::empty(),
{
    indexmap::IndexMap::new()
}

/// Relies on indexmap::IndexMap::len: the number of entries.
#[verifier::external_body]
fn table_len(m: &indexmap::IndexMap<usize, usize>) -> (r: usize)
    ensures
        r == table_entries(*m).len(),
{
    m.len()
}

/// Relies on indexmap::IndexMap::get_index_of: the position of an existing
/// key in the order, nothing for an absent key.
#[verifier::external_body]
fn table_get_index_of(m: &indexmap::IndexMap<usize, usize>, k: usize) -> (r: Option<usize>)
    ensures
        r matches Some(i) ==> i < table_entries(*m).len() && table_entries(*m)[i as int].0 == k,
        r is None ==> forall|q: int|
            0 <= q < table_entries(*m).len() ==> (#[trigger] table_entries(*m)[q]).0 != k,
{
    m.get_index_of(&k)
}

/// Relies on indexmap::IndexMap::insert_full: an existing key keeps its
/// place in the order and only its value is replaced; a new key-value pair
/// is inserted last in order; the key's index is returned.
#[verifier::external_body]
fn table_insert_full(m: &mut indexmap::IndexMap<usize, usize>, k: usize, v: usize) -> (r: (
    usize,
    Option<usize>,
))
    ensures
        (exists|q: int|
            0 <= q < table_entries(*old(m)).len() && (#[trigger] table_entries(*old(m))[q]).0
                == k) ==> r.1 is Some && r.0 < table_entries(*old(m)).len() && table_entries(
            *old(m),
        )[r.0 as int].0 == k && table_entries(*final(m)) == table_entries(*old(m)).update(
            r.0 as int,
            (k, v),
        ),
        !(exists|q: int|
            0 <= q < table_entries(*old(m)).len() && (#[trigger] table_entries(*old(m))[q]).0
                == k) ==> r.1 is None && r.0 == table_entries(*old(m)).len() && table_entries(
            *final(m),
        ) == table_entries(*old(m)).push((k, v)),
{
    m.insert_full(k, v)
}

/// The keys of an index table, in insertion order.
pub open spec fn table_keys(es: Seq<(usize, usize)>) -> Seq<usize> {
    es.map_values(|e: (usize, usize)| e.0)
}

/// An index table binds each key to its own slot, keys distinct.
pub open spec fn table_wf(es: Seq<(usize, usize)>) -> bool {
    &&& distinct(table_keys(es))
    &&& forall|q: int| 0 <= q < es.len() ==> (#[trigger] es[q]).1 == q
}

/// Interns `node` in an index table: an existing key keeps its slot, a new
/// key takes the next one. Returns the slot.
fn table_register(m: &mut indexmap::IndexMap<usize, usize>, node: usize) -> (r: usize)
    requires
        table_wf(table_entries(*old(m))),
        table_entries(*old(m)).len() < usize::MAX,
    ensures
        table_wf(table_entries(*final(m))),
        table_keys(table_entries(*final(m))) == bind(table_keys(table_entries(*old(m))), node),
        r == bind_index(table_keys(table_entries(*old(m))), node),
{
    let found = table_get_index_of(m, node);
    match found {
        Some(i) => {
            proof {
                let keys = table_keys(table_entries(*m));
                assert(keys[i as int] == node);
                assert forall|k: int| 0 <= k < i implies keys[k] != node by {
                    if keys[k] == node {
                        assert(keys[k] == keys[i as int]);
                    }
                }
                lemma_first_index_at(keys, node, i as int);
                assert(keys.contains(node));
            }
            i
        },
        None => {
            let len = table_len(m);
            let r = table_insert_full(m, node, len);
            proof {
                let olds = table_entries(*old(m));
                let keys = table_keys(olds);
                assert(!keys.contains(node)) by {
                    if keys.contains(node) {
                        let w = choose|w: int| 0 <= w < keys.len() && keys[w] == node;
                        assert(olds[w].0 == node);
                    }
                }
                let news = table_entries(*m);
                assert(news == olds.push((node, len)));
                assert(table_keys(news) =~= keys.push(node));
                assert forall|a: int, b: int|
                    0 <= a < b < table_keys(news).len() implies table_keys(news)[a] != table_keys(
                    news,
                )[b] by {
                    if b < keys.len() {
                        assert(table_keys(news)[a] == keys[a] && table_keys(news)[b] == keys[b]);
                    } else {
                        assert(table_keys(news)[b] == node);
                        assert(table_keys(news)[a] == keys[a]);
                        if keys[a] == node {
                            assert(keys.contains(node));
                        }
                    }
                }
                assert forall|q: int| 0 <= q < news.len() implies (#[trigger] news[q]).1 == q by {
                    if q < olds.len() {
                        assert(news[q] == olds[q]);
                    } else {
                        assert(news[q] == (node, len));
                    }
                }
            }
            r.0
        },
    }
}

/// State that persists across all functions of one compilation unit: the
/// generated-callable cache, the capture and argument index tables, and
/// the custom-op registration table.
pub struct GlobalEmissionState {
    pub message: Vec<String>,
    pub generated_callables: Vec<(u64, String)>,
    pub generated_callable_sources: Vec<(String, String)>,
    pub callable_def: String,
    pub captures: indexmap::IndexMap<usize, usize>,
    pub args: indexmap::IndexMap<usize, usize>,
    pub cpu_custom_ops: indexmap::IndexMap<usize, usize>,
}

impl GlobalEmissionState {
    pub open spec fn wf(&self) -> bool {
        &&& table_wf(table_entries(self.captures))
        &&& table_wf(table_entries(self.args))
        &&& table_wf(table_entries(self.cpu_custom_ops))
    }

    /// The captured nodes, in registration order.
    pub open spec fn capture_keys(&self) -> Seq<usize> {
        table_keys(table_entries(self.captures))
    }

    /// The argument nodes, in registration order.
    pub open spec fn arg_keys(&self) -> Seq<usize> {
        table_keys(table_entries(self.args))
    }

    /// The registered custom ops, in registration order.
    pub open spec fn custom_op_keys(&self) -> Seq<usize> {
        table_keys(table_entries(self.cpu_custom_ops))
    }

    pub fn new() -> (r: Self)
        ensures
            r.wf(),
            r.capture_keys() == Seq::<usize>::empty(),
            r.arg_keys() == Seq::<usize>::empty(),
            r.custom_op_keys() == Seq::<usize>::empty(),
            r.message@.len() == 0,
            r.callable_def@ == Seq::<char>::empty(),
    {
        let r = GlobalEmissionState {
            message: Vec::new(),
            generated_callables: Vec::new(),
            generated_callable_sources: Vec::new(),
            callable_def: String::new(),
            captures: table_new(),
            args: table_new(),
            cpu_custom_ops: table_new(),
        };
        proof {
            assert(table_keys(table_entries(r.captures)) =~= Seq::<usize>::empty());
            assert(table_keys(table_entries(r.args)) =~= Seq::<usize>::empty());
            assert(table_keys(table_entries(r.cpu_custom_ops)) =~= Seq::<usize>::empty());
        }
        r
    }

    /// The capture index table: one stable slot per captured node.
    pub fn register_capture(&mut self, node: usize) -> (r: usize)
        requires
            old(self).wf(),
            table_entries(old(self).captures).len() < usize::MAX,
        ensures
            final(self).wf(),
            final(self).capture_keys() == bind(old(self).capture_keys(), node),
            r == bind_index(old(self).capture_keys(), node),
            final(self).args == old(self).args,
            final(self).cpu_custom_ops == old(self).cpu_custom_ops,
    {
        table_register(&mut self.captures, node)
    }

    /// The argument index table: one stable slot per argument node.
    pub fn register_argument(&mut self, node: usize) -> (r: usize)
        requires
            old(self).wf(),
            table_entries(old(self).args).len() < usize::MAX,
        ensures
            final(self).wf(),
            final(self).arg_keys() == bind(old(self).arg_keys(), node),
            r == bind_index(old(self).arg_keys(), node),
            final(self).captures == old(self).captures,
            final(self).cpu_custom_ops == old(self).cpu_custom_ops,
    {
        table_register(&mut self.args, node)
    }

    /// The custom-op registration table: one stable slot per op handle.
    pub fn register_custom_op(&mut self, op: usize) -> (r: usize)
        requires
            old(self).wf(),
            table_entries(old(self).cpu_custom_ops).len() < usize::MAX,
        ensures
            final(self).wf(),
            final(self).custom_op_keys() == bind(old(self).custom_op_keys(), op),
            r == bind_index(old(self).custom_op_keys(), op),
            final(self).captures == old(self).captures,
            final(self).args == old(self).args,
    {
        table_register(&mut self.cpu_custom_ops, op)
    }
}

// ---------------------------------------------------------------------------
// The per-function emitter
// ---------------------------------------------------------------------------

/// The comma-separated trailing operands of an atomic statement.
pub open spec fn comma_join(parts: Seq<Seq<char>>) -> Seq<char>
    decreases parts.len(),
{
    if parts.len() == 0 {
        Seq::empty()
    } else if parts.len() == 1 {
        parts[0]
    } else {
        comma_join(parts.drop_last()) + ", "@ + parts.last()
    }
}

/// The one statement emitted for an atomic chain operation.
pub open spec fn atomic_stmt(
    node_ty_s: Seq<char>,
    var: Seq<char>,
    op: Seq<char>,
    chain: Seq<char>,
    operands: Seq<Seq<char>>,
) -> Seq<char> {
    "const "@ + node_ty_s + " "@ + var + " = "@ + op + "(&"@ + chain + ", "@ + comma_join(operands)
        + ");\n"@
}

/// The typed reference into the resource at the given index expressions.
pub open spec fn buffer_ref_text(buffer_ty: Seq<char>, v0: Seq<char>, v1: Seq<char>) -> Seq<char> {
    "(*lc_buffer_ref<"@ + buffer_ty + ">(k_args, "@ + v0 + ", "@ + v1 + "))"@
}

/// Translates one function: variable naming, access-chain construction,
/// atomic-operation expansion, and body-text assembly. Created per
/// function, referencing the phi results collected for it, and discarded
/// after emission.
pub struct FunctionEmitter {
    /// Nodes in binding order; a node's position is its variable index,
    /// shared across all kinds.
    pub bound: Vec<usize>,
    pub body: String,
    pub fwd_defs: String,
    pub indent: usize,
    pub phis: indexmap::IndexSet<usize>,
    pub phis_per_block: indexmap::IndexMap<usize, Vec<usize>>,
    pub inside_generic_loop: bool,
}

/// The parts of the emitter that variable binding and text emission leave
/// untouched.
pub open spec fn same_aux(a: FunctionEmitter, b: FunctionEmitter) -> bool {
    &&& a.fwd_defs@ == b.fwd_defs@
    &&& a.indent == b.indent
    &&& a.phis == b.phis
    &&& a.phis_per_block == b.phis_per_block
    &&& a.inside_generic_loop == b.inside_generic_loop
}

impl FunctionEmitter {
    pub open spec fn wf(&self) -> bool {
        distinct(self.bound@)
    }

    /// A fresh emitter referencing one function's phi results.
    pub fn new(
        phis: indexmap::IndexSet<usize>,
        phis_per_block: indexmap::IndexMap<usize, Vec<usize>>,
    ) -> (r: Self)
        ensures
            r.wf(),
            r.bound@.len() == 0,
            r.body@ == Seq::<char>::empty(),
            r.fwd_defs@ == Seq::<char>::empty(),
            r.indent == 1,
            r.phis == phis,
            r.phis_per_block == phis_per_block,
            !r.inside_generic_loop,
    {
        FunctionEmitter {
            bound: Vec::new(),
            body: String::new(),
            fwd_defs: String::new(),
            indent: 1,
            phis,
            phis_per_block,
            inside_generic_loop: false,
        }
    }

    /// Appends the current indentation, four spaces per level.
    pub fn write_ident(&mut self)
        ensures
            final(self).body@ == old(self).body@ + indent_text(old(self).indent as nat),
            final(self).bound@ == old(self).bound@,
            same_aux(*old(self), *final(self)),
    {
        let n = self.indent;
        let mut i: usize = 0;
        while i < n
            invariant
                i <= n,
                n == self.indent,
                self.body@ == old(self).body@ + indent_text(i as nat),
                self.bound@ == old(self).bound@,
                same_aux(*old(self), *self),
            decreases n - i,
        {
            self.body.append("    ");
            proof {
                assert(self.body@ =~= old(self).body@ + indent_text((i + 1) as nat));
            }
            i = i + 1;
        }
    }

    /// Binds a variable name to `node`, memoized per node identity: the
    /// kind tag plus one monotonically increasing index shared across all
    /// kinds.
    pub fn gen_node(&mut self, f: &IrFunction, node: usize) -> (r: String)
        requires
            old(self).wf(),
            old(self).bound@.len() < usize::MAX,
            node < f.nodes@.len(),
            f.nodes@[node as int].inst.is_value_kind(),
        ensures
            final(self).wf(),
            final(self).bound@ == bind(old(self).bound@, node),
            r@ == node_var(f.nodes@[node as int].inst, bind_index(old(self).bound@, node)),
            final(self).body@ == old(self).body@,
            same_aux(*old(self), *final(self)),
    {
        let idx = intern(&mut self.bound, node);
        let tag = tag_str(&f.nodes[node].inst);
        let mut s = tag.to_owned();
        let d = dec_u64(idx as u64);
        s.append(d.as_str());
        proof {
            assert(s@ =~= node_var(f.nodes@[node as int].inst, bind_index(old(self).bound@, node)));
        }
        s
    }

    /// Builds the expression addressing one element of a nested
    /// aggregate, consuming the index nodes left to right from the static
    /// type of `node`.
    #[verifier::loop_isolation(false)]
    #[verifier::rlimit(100)]
    pub fn access_chain(
        &mut self,
        arena: &TypeArena,
        f: &IrFunction,
        var: String,
        node: usize,
        indices: &[usize],
    ) -> (r: Result<String, CodegenError>)
        requires
            old(self).wf(),
            arena.wf(),
            node < f.nodes@.len(),
            f.nodes@[node as int].ty < arena.types@.len(),
            forall|k: int|
                0 <= k < indices@.len() ==> (#[trigger] indices@[k]) < f.nodes@.len()
                    && f.nodes@[indices@[k] as int].inst.is_value_kind(),
            old(self).bound@.len() + indices@.len() < usize::MAX,
        ensures
            final(self).wf(),
            final(self).body@ == old(self).body@,
            same_aux(*old(self), *final(self)),
            match r {
                Ok(s) => chain_spec(
                    arena.types@,
                    *f,
                    var@,
                    f.nodes@[node as int].ty as int,
                    indices@,
                    0,
                    old(self).bound@,
                ) matches Ok(pr) && s@ == pr.0 && final(self).bound@ == pr.1,
                Err(e) => chain_spec(
                    arena.types@,
                    *f,
                    var@,
                    f.nodes@[node as int].ty as int,
                    indices@,
                    0,
                    old(self).bound@,
                ) == Err::<(Seq<char>, Seq<usize>), CodegenError>(e),
            },
    {
        let ghost goal = chain_spec(
            arena.types@,
            *f,
            var@,
            f.nodes@[node as int].ty as int,
            indices@,
            0,
            old(self).bound@,
        );
        let mut acc = var;
        let mut ty = f.nodes[node].ty;
        let n = indices.len();
        let mut k: usize = 0;
        while k < n
            invariant
                k <= n,
                n == indices@.len(),
                ty < arena.types@.len(),
                self.wf(),
                self.bound@.len() <= old(self).bound@.len() + k,
                self.body@ == old(self).body@,
                same_aux(*old(self), *self),
                goal == chain_spec(
                    arena.types@,
                    *f,
                    acc@,
                    ty as int,
                    indices@,
                    k as int,
                    self.bound@,
                ),
            decreases n - k,
        {
            let idx = indices[k];
            match &arena.types[ty] {
                TypeDesc::Vector { kind, dim } => {
                    let nv = self.gen_node(f, idx);
                    acc.append("[");
                    acc.append(nv.as_str());
                    acc.append("]");
                    if k == n - 1 {
                        proof {
                            assert(goal matches Ok(pr) && pr.0 == acc@ && pr.1 == self.bound@);
                        }
                        return Ok(acc);
                    }
                    return Err(CodegenError::MalformedAccessChain);
                },
                TypeDesc::Matrix { kind, dim } => {
                    let nv = self.gen_node(f, idx);
                    acc.append("[");
                    acc.append(nv.as_str());
                    acc.append("]");
                    if k == n - 1 {
                        proof {
                            assert(goal matches Ok(pr) && pr.0 == acc@ && pr.1 == self.bound@);
                        }
                        return Ok(acc);
                    }
                    return Err(CodegenError::MalformedAccessChain);
                },
                TypeDesc::Array { elem, len } => {
                    proof {
                        assert(arena.wf_at(ty as int));
                    }
                    let nv = self.gen_node(f, idx);
                    acc.append("[");
                    acc.append(nv.as_str());
                    acc.append("]");
                    ty = *elem;
                },
                TypeDesc::Struct { fields, alignment } => {
                    proof {
                        assert(arena.wf_at(ty as int));
                    }
                    match &f.nodes[idx].inst {
                        Instruction::Constant { value } => {
                            let v = *value;
                            if !(v < fields.len() as u64) {
                                return Err(CodegenError::MalformedAccessChain);
                            }
                            acc.append(".f");
                            let d = dec_u64(v);
                            acc.append(d.as_str());
                            ty = fields[v as usize];
                        },
                        _ => {
                            return Err(CodegenError::MalformedAccessChain);
                        },
                    }
                },
                _ => {
                    return Err(CodegenError::MalformedAccessChain);
                },
            }
            k = k + 1;
        }
        proof {
            assert(goal matches Ok(pr) && pr.0 == acc@ && pr.1 == self.bound@);
        }
        Ok(acc)
    }

    /// Emits one statement invoking the named atomic primitive on the
    /// address of the element located by the chain indices inside the
    /// resource, binding the declared result type and name to its return
    /// value. The argument list is `[resource, resourceIndex,
    /// chainIndices..., operands...]` with `noperand` trailing operands.
    #[verifier::loop_isolation(false)]
    #[verifier::rlimit(100)]
    pub fn atomic_chain_op(
        &mut self,
        reg: &mut TypeRegistry,
        arena: &TypeArena,
        f: &IrFunction,
        var: &str,
        node_ty_s: &str,
        args: &[usize],
        args_v: &[String],
        op: &str,
        noperand: usize,
    ) -> (r: Result<(), CodegenError>)
        requires
            old(self).wf(),
            old(reg).wf(arena),
            arena.wf(),
            1 <= noperand,
            2 + noperand <= args@.len(),
            args_v@.len() == args@.len(),
            args@[0] < f.nodes@.len(),
            f.nodes@[args@[0] as int].ty < arena.types@.len(),
            forall|k: int|
                2 <= k < args@.len() - noperand ==> (#[trigger] args@[k]) < f.nodes@.len()
                    && f.nodes@[args@[k] as int].inst.is_value_kind(),
            old(self).bound@.len() + args@.len() < usize::MAX,
        ensures
            final(self).wf(),
            final(reg).wf(arena),
            old(reg).emitted@.is_prefix_of(final(reg).emitted@),
            final(reg).emitted@ == old(reg).emitted@ + crate::types::emit_trace(
                arena.types@,
                f.nodes@[args@[0] as int].ty as int,
                old(reg).emitted@,
            ),
            same_aux(*old(self), *final(self)),
            ({
                let bt = name_of(arena.types@, f.nodes@[args@[0] as int].ty as int);
                let chain = (match bt {
                    Ok(t) => chain_spec(
                        arena.types@,
                        *f,
                        buffer_ref_text(t, args_v@[0]@, args_v@[1]@),
                        f.nodes@[args@[0] as int].ty as int,
                        args@.subrange(2, args@.len() as int - noperand as int),
                        0,
                        old(self).bound@,
                    ),
                    Err(e) => Err(e),
                });
                match r {
                    Ok(()) => chain matches Ok(pr) && final(self).bound@ == pr.1 && final(self).body@ == old(self).body@ + atomic_stmt(
                        node_ty_s@,
                        var@,
                        op@,
                        pr.0,
                        views(args_v@.subrange(args_v@.len() as int - noperand as int, args_v@.len() as int)),
                    ),
                    Err(e) => chain == Err::<(Seq<char>, Seq<usize>), CodegenError>(e) && final(self).body@ == old(self).body@,
                }
            }),
    {
        let buffer_ty = match reg.gen_type(arena, f.nodes[args[0]].ty) {
            Ok(t) => t,
            Err(e) => {
                return Err(e);
            },
        };
        let mut buffer_ref = "(*lc_buffer_ref<".to_owned();
        buffer_ref.append(buffer_ty.as_str());
        buffer_ref.append(">(k_args, ");
        buffer_ref.append(args_v[0].as_str());
        buffer_ref.append(", ");
        buffer_ref.append(args_v[1].as_str());
        buffer_ref.append("))");
        proof {
            assert(buffer_ref@ =~= buffer_ref_text(buffer_ty@, args_v@[0]@, args_v@[1]@));
        }
        let indices = slice_subrange(args, 2, args.len() - noperand);
        let chain = match self.access_chain(arena, f, buffer_ref, args[0], indices) {
            Ok(c) => c,
            Err(e) => {
                return Err(e);
            },
        };
        // Join the trailing operands.
        let start = args_v.len() - noperand;
        let mut operands = args_v[start].clone();
        let mut j: usize = start + 1;
        proof {
            let ops = views(args_v@.subrange(start as int, args_v@.len() as int));
            assert(views(args_v@.subrange(start as int, start + 1)) =~= seq![args_v@[start as int]@]);
            assert(operands@ =~= comma_join(views(args_v@.subrange(start as int, start + 1))));
        }
        while j < args_v.len()
            invariant
                start + 1 <= j <= args_v@.len(),
                operands@ == comma_join(views(args_v@.subrange(start as int, j as int))),
            decreases args_v@.len() - j,
        {
            operands.append(", ");
            operands.append(args_v[j].as_str());
            proof {
                let pre = views(args_v@.subrange(start as int, j as int));
                let post = views(args_v@.subrange(start as int, j as int + 1));
                assert(post.drop_last() =~= pre);
                assert(post.last() == args_v@[j as int]@);
                assert(operands@ =~= comma_join(post));
            }
            j = j + 1;
        }
        self.body.append("const ");
        self.body.append(node_ty_s);
        self.body.append(" ");
        self.body.append(var);
        self.body.append(" = ");
        self.body.append(op);
        self.body.append("(&");
        self.body.append(chain.as_str());
        self.body.append(", ");
        self.body.append(operands.as_str());
        self.body.append(");\n");
        proof {
            assert(args_v@.subrange(start as int, args_v@.len() as int) =~= args_v@.subrange(
                args_v@.len() as int - noperand as int,
                args_v@.len() as int,
            ));
            assert(final(self).body@ =~= old(self).body@ + atomic_stmt(
                node_ty_s@,
                var@,
                op@,
                chain@,
                views(
                    args_v@.subrange(
                        args_v@.len() as int - noperand as int,
                        args_v@.len() as int,
                    ),
                ),
            ));
        }
        Ok(())
    }
}

/// The symbolic component name of ordinal `i` inside the static type of
/// `node`: a positional field for a struct, one of the four canonical
/// component names for a vector, a column subscript for a matrix.
pub open spec fn gep_field(t: TypeDesc, i: u32) -> Seq<char> {
    match t {
        TypeDesc::Struct { fields, alignment } => "f"@ + dec_digits(i as nat),
        TypeDesc::Vector { kind, dim } => if i == 0 {
            "x"@
        } else if i == 1 {
            "y"@
        } else if i == 2 {
            "z"@
        } else {
            "w"@
        },
        TypeDesc::Matrix { kind, dim } => "cols["@ + dec_digits(i as nat) + "]"@,
        _ => Seq::empty(),
    }
}

/// The symbolic (not dynamically indexed) component name used where
/// differentiation codegen needs one. The ordinal of a vector component
/// must be below four, and the type must be a struct, vector, or matrix.
pub fn gep_field_name(arena: &TypeArena, f: &IrFunction, node: usize, i: u32) -> (r: String)
    requires
        node < f.nodes@.len(),
        f.nodes@[node as int].ty < arena.types@.len(),
        (arena.types@[f.nodes@[node as int].ty as int] is Struct || arena.types@[f.nodes@[node
            as int].ty as int] is Vector || arena.types@[f.nodes@[node as int].ty as int]
            is Matrix),
        arena.types@[f.nodes@[node as int].ty as int] is Vector ==> i < 4,
    ensures
        r@ == gep_field(arena.types@[f.nodes@[node as int].ty as int], i),
{
    let ty = f.nodes[node].ty;
    match &arena.types[ty] {
        TypeDesc::Struct { fields, alignment } => {
            let mut s = "f".to_owned();
            let d = dec_u64(i as u64);
            s.append(d.as_str());
            proof {
                assert(s@ =~= gep_field(arena.types@[ty as int], i));
            }
            s
        },
        TypeDesc::Vector { kind, dim } => {
            let r: &'static str = if i == 0 {
                "x"
            } else if i == 1 {
                "y"
            } else if i == 2 {
                "z"
            } else {
                "w"
            };
            r.to_owned()
        },
        TypeDesc::Matrix { kind, dim } => {
            let mut s = "cols[".to_owned();
            let d = dec_u64(i as u64);
            s.append(d.as_str());
            s.append("]");
            proof {
                assert(s@ =~= gep_field(arena.types@[ty as int], i));
            }
            s
        },
        _ => {
            proof {
                assert(false);
            }
            String::new()
        },
    }
}

/// Access-chain correctness: a struct holding an array of a vector,
/// indexed with a compile-time field ordinal, an array index expression,
/// and a component index expression, yields
/// `base.f<ord>[arrayIndex][componentIndex]`; a fourth index malforms
/// the chain.
pub proof fn lemma_access_chain_struct_array_vector(
    types: Seq<TypeDesc>,
    f: IrFunction,
    var: Seq<char>,
    sty: int,
    aty: usize,
    vty: usize,
    ord: u64,
    c: usize,
    i1: usize,
    i2: usize,
    x: usize,
    binds: Seq<usize>,
)
    requires
        0 <= sty < types.len(),
        (aty as int) < types.len(),
        (vty as int) < types.len(),
        f.nodes@[c as int].inst matches Instruction::Constant { value: ord2 } && ord2 == ord,
        types[sty] matches TypeDesc::Struct { fields: flds, alignment: al } && (ord as int)
            < flds@.len() && flds@[ord as int] == aty,
        types[aty as int] matches TypeDesc::Array { elem: e2, len: alen } && e2 == vty,
        types[vty as int] is Vector,
    ensures
        ({
            let nv1 = node_var(f.nodes@[i1 as int].inst, bind_index(binds, i1));
            let nv2 = node_var(f.nodes@[i2 as int].inst, bind_index(bind(binds, i1), i2));
            chain_spec(types, f, var, sty, seq![c, i1, i2], 0, binds) == Ok::<
                (Seq<char>, Seq<usize>),
                CodegenError,
            >(
                (
                    var + ".f"@ + dec_digits(ord as nat) + "["@ + nv1 + "]"@ + "["@ + nv2 + "]"@,
                    bind(bind(binds, i1), i2),
                ),
            )
        }),
        chain_spec(types, f, var, sty, seq![c, i1, i2, x], 0, binds) == Err::<
            (Seq<char>, Seq<usize>),
            CodegenError,
        >(CodegenError::MalformedAccessChain),
{
    let nv1 = node_var(f.nodes@[i1 as int].inst, bind_index(binds, i1));
    let nv2 = node_var(f.nodes@[i2 as int].inst, bind_index(bind(binds, i1), i2));
    let v1 = var + ".f"@ + dec_digits(ord as nat);
    let s3 = seq![c, i1, i2];
    assert(s3[0] == c && s3[1] == i1 && s3[2] == i2);
    assert(chain_spec(types, f, var, sty, s3, 0, binds) == chain_spec(
        types,
        f,
        v1,
        aty as int,
        s3,
        1,
        binds,
    ));
    assert(chain_spec(types, f, v1, aty as int, s3, 1, binds) == chain_spec(
        types,
        f,
        v1 + "["@ + nv1 + "]"@,
        vty as int,
        s3,
        2,
        bind(binds, i1),
    ));
    assert(chain_spec(types, f, v1 + "["@ + nv1 + "]"@, vty as int, s3, 2, bind(binds, i1))
        == Ok::<(Seq<char>, Seq<usize>), CodegenError>(
        ((v1 + "["@ + nv1 + "]"@) + "["@ + nv2 + "]"@, bind(bind(binds, i1), i2)),
    ));
    assert((v1 + "["@ + nv1 + "]"@) + "["@ + nv2 + "]"@ =~= var + ".f"@ + dec_digits(ord as nat)
        + "["@ + nv1 + "]"@ + "["@ + nv2 + "]"@);
    let s4 = seq![c, i1, i2, x];
    assert(s4[0] == c && s4[1] == i1 && s4[2] == i2 && s4[3] == x);
    assert(chain_spec(types, f, var, sty, s4, 0, binds) == chain_spec(
        types,
        f,
        v1,
        aty as int,
        s4,
        1,
        binds,
    ));
    assert(chain_spec(types, f, v1, aty as int, s4, 1, binds) == chain_spec(
        types,
        f,
        v1 + "["@ + nv1 + "]"@,
        vty as int,
        s4,
        2,
        bind(binds, i1),
    ));
    assert(chain_spec(types, f, v1 + "["@ + nv1 + "]"@, vty as int, s4, 2, bind(binds, i1))
        == Err::<(Seq<char>, Seq<usize>), CodegenError>(CodegenError::MalformedAccessChain));
}

} // verus!
