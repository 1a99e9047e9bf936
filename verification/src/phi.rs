//! SSA phi-node discovery. `PhiCollector::visit_block` walks one
//! function's structured control-flow graph and accumulates the global
//! ordered phi set plus the predecessor-block to phi-list map, both kept
//! in insertion-ordered collections of the `indexmap` crate.

use vstd::prelude::*;

verus! {

use crate::CodegenError;
use crate::ir::Instruction;
use crate::ir::IrFunction;
use crate::ir::PhiIncoming;
use crate::ir::SwitchCase;

// ---------------------------------------------------------------------------
// Trusted view of the indexmap collections
// ---------------------------------------------------------------------------

#[verifier::external_type_specification]
#[verifier::external_body]
#[verifier::reject_recursive_types(T)]
#[verifier::reject_recursive_types(S)]
pub struct ExIndexSet<T, S>(indexmap::IndexSet<T, S>);

#[verifier::external_type_specification]
#[verifier::external_body]
#[verifier::reject_recursive_types(K)]
#[verifier::reject_recursive_types(V)]
#[verifier::reject_recursive_types(S)]
pub struct ExIndexMap<K, V, S>(indexmap::IndexMap<K, V, S>);

/// What the phi set holds, in insertion order.
pub uninterp spec fn phi_set_elems(s: indexmap::IndexSet<usize>) -> Seq<usize>;

/// The predecessor map's keys, in insertion order.
pub uninterp spec fn pred_map_keys(m: indexmap::IndexMap<usize, Vec<usize>>) -> Seq<usize>;

/// The predecessor map's contents.
pub uninterp spec fn pred_map_vals(m: indexmap::IndexMap<usize, Vec<usize>>) -> Map<
    usize,
    Seq<usize>,
>;

/// Relies on indexmap::IndexSet::new: creates an empty set.
#[verifier::external_body]
fn phi_set_new() -> (s: indexmap::IndexSet<usize>)
    ensures
        phi_set_elems(s) == Seq::<usize>::empty(),
{
    indexmap::IndexSet::new()
}

/// Relies on indexmap::IndexSet::insert: a new value is inserted last in
/// order and `true` is returned; an existing value leaves the set
/// unchanged, without altering its insertion order, and returns `false`.
#[verifier::external_body]
fn phi_set_insert(s: &mut indexmap::IndexSet<usize>, v: usize) -> (r: bool)
    ensures
        phi_set_elems(*old(s)).contains(v) ==> !r && phi_set_elems(*final(s)) == phi_set_elems(
            *old(s),
        ),
        !phi_set_elems(*old(s)).contains(v) ==> r && phi_set_elems(*final(s)) == phi_set_elems(
            *old(s),
        ).push(v),
{
    s.insert(v)
}

/// Relies on indexmap::IndexSet::iter: yields the values in their
/// insertion order.
#[verifier::external_body]
fn phi_set_items(s: &indexmap::IndexSet<usize>) -> (r: Vec<usize>)
    ensures
        r@ == phi_set_elems(*s),
{
    s.iter().copied().collect()
}

/// Relies on indexmap::IndexMap::new: creates an empty map.
#[verifier::external_body]
fn pred_map_new() -> (r: indexmap::IndexMap<usize, Vec<usize>>)
    ensures
        pred_map_keys(r) == Seq::<usize>::empty(),
        (pred_map_vals(r) == Map::<usize, Seq<usize>>::empty()),
{
    indexmap::IndexMap::new()
}

/// Relies on indexmap::IndexMap::get: returns the value stored for the
/// key, or nothing for an absent key.
#[verifier::external_body]
fn pred_map_get(m: &indexmap::IndexMap<usize, Vec<usize>>, k: usize) -> (r: Option<Vec<usize>>)
    ensures
        r matches Some(v) ==> pred_map_keys(*m).contains(k) && pred_map_vals(*m).contains_key(k)
            && v@ == pred_map_vals(*m)[k],
        r is None ==> !pred_map_keys(*m).contains(k),
{
    m.get(&k).cloned()
}

/// Relies on indexmap::IndexMap::insert: an existing key keeps its place
/// in the order and only its value is replaced; a new key is inserted
/// last in order.
#[verifier::external_body]
fn pred_map_insert(m: &mut indexmap::IndexMap<usize, Vec<usize>>, k: usize, v: Vec<usize>)
    ensures
        pred_map_keys(*old(m)).contains(k) ==> pred_map_keys(*final(m)) == pred_map_keys(*old(m)),
        !pred_map_keys(*old(m)).contains(k) ==> pred_map_keys(*final(m)) == pred_map_keys(
            *old(m),
        ).push(k),
        pred_map_vals(*final(m)) == pred_map_vals(*old(m)).insert(k, v@),
{
    m.insert(k, v);
}

/// Relies on indexmap::IndexMap::keys: yields the keys in their insertion
/// order.
#[verifier::external_body]
fn pred_map_key_list(m: &indexmap::IndexMap<usize, Vec<usize>>) -> (r: Vec<usize>)
    ensures
        r@ == pred_map_keys(*m),
{
    m.keys().copied().collect()
}

// ---------------------------------------------------------------------------
// The collection model
// ---------------------------------------------------------------------------

/// The predecessor map's abstract state: key insertion order plus contents.
#[verifier::ext_equal]
pub struct PredState {
    pub keys: Seq<usize>,
    pub vals: Map<usize, Seq<usize>>,
}

/// Set insertion: append the phi unless it is already present.
pub open spec fn add_phi(s: Seq<usize>, p: usize) -> Seq<usize> {
    if s.contains(p) {
        s
    } else {
        s.push(p)
    }
}

pub open spec fn add_phis(s: Seq<usize>, ps: Seq<usize>) -> Seq<usize>
    decreases ps.len(),
{
    if ps.len() == 0 {
        s
    } else {
        add_phi(add_phis(s, ps.drop_last()), ps.last())
    }
}

/// One (predecessor block, phi) registration: the phi is appended to the
/// predecessor's list, a new predecessor key going last in order.
pub open spec fn add_event(st: PredState, e: (usize, usize)) -> PredState {
    PredState {
        keys: if st.keys.contains(e.0) {
            st.keys
        } else {
            st.keys.push(e.0)
        },
        vals: st.vals.insert(
            e.0,
            (if st.keys.contains(e.0) {
                st.vals[e.0]
            } else {
                Seq::empty()
            }).push(e.1),
        ),
    }
}

pub open spec fn add_events(st: PredState, es: Seq<(usize, usize)>) -> PredState
    decreases es.len(),
{
    if es.len() == 0 {
        st
    } else {
        add_event(add_events(st, es.drop_last()), es.last())
    }
}

pub proof fn lemma_add_phis_app(s: Seq<usize>, a: Seq<usize>, b: Seq<usize>)
    ensures
        add_phis(s, a + b) == add_phis(add_phis(s, a), b),
    decreases b.len(),
{
    if b.len() == 0 {
        assert(a + b =~= a);
    } else {
        assert((a + b).drop_last() =~= a + b.drop_last());
        assert((a + b).last() == b.last());
        lemma_add_phis_app(s, a, b.drop_last());
    }
}

pub proof fn lemma_add_events_app(st: PredState, a: Seq<(usize, usize)>, b: Seq<(usize, usize)>)
    ensures
        add_events(st, a + b) == add_events(add_events(st, a), b),
    decreases b.len(),
{
    if b.len() == 0 {
        assert(a + b =~= a);
    } else {
        assert((a + b).drop_last() =~= a + b.drop_last());
        assert((a + b).last() == b.last());
        lemma_add_events_app(st, a, b.drop_last());
    }
}

/// A sequence grown by `add_phis` from a duplicate-free sequence stays
/// duplicate-free: each reachable phi is kept exactly once.
pub proof fn lemma_add_phis_distinct(s: Seq<usize>, ps: Seq<usize>)
    requires
        forall|i: int, j: int| 0 <= i < j < s.len() ==> s[i] != s[j],
    ensures
        forall|i: int, j: int|
            0 <= i < j < add_phis(s, ps).len() ==> add_phis(s, ps)[i] != add_phis(s, ps)[j],
    decreases ps.len(),
{
    if ps.len() > 0 {
        lemma_add_phis_distinct(s, ps.drop_last());
        let pre = add_phis(s, ps.drop_last());
        let post = add_phis(s, ps);
        if !pre.contains(ps.last()) {
            assert forall|i: int, j: int| 0 <= i < j < post.len() implies post[i] != post[j] by {
                if j < pre.len() {
                    assert(post[i] == pre[i] && post[j] == pre[j]);
                } else {
                    assert(post[j] == ps.last());
                    assert(post[i] == pre[i]);
                    if pre[i] == ps.last() {
                        assert(pre.contains(ps.last()));
                    }
                }
            }
        }
    }
}

// ---------------------------------------------------------------------------
// The traversal model
// ---------------------------------------------------------------------------

/// The incoming-edge registrations of one phi, in incoming-edge order.
pub open spec fn incoming_events(phi: usize, incs: Seq<PhiIncoming>) -> Seq<(usize, usize)> {
    incs.map_values(|inc: PhiIncoming| (inc.block, phi))
}

pub open spec fn incomings_of(f: IrFunction, p: usize) -> Seq<PhiIncoming> {
    if p < f.nodes@.len() {
        match f.nodes@[p as int].inst {
            Instruction::Phi { incomings } => incomings@,
            _ => Seq::empty(),
        }
    } else {
        Seq::empty()
    }
}

/// Every entry of a block's phi sub-list is a phi node.
pub open spec fn phis_wf(f: IrFunction, phis: Seq<usize>) -> bool {
    forall|i: int|
        0 <= i < phis.len() ==> (#[trigger] phis[i]) < f.nodes@.len() && f.nodes@[phis[i] as int].inst
            is Phi
}

/// The registrations of a whole phi sub-list, in list order.
pub open spec fn phi_events_of(f: IrFunction, phis: Seq<usize>) -> Seq<(usize, usize)>
    decreases phis.len(),
{
    if phis.len() == 0 {
        Seq::empty()
    } else {
        phi_events_of(f, phis.drop_last()) + incoming_events(
            phis.last(),
            incomings_of(f, phis.last()),
        )
    }
}

pub open spec fn seq_pair_cat(
    a: (Seq<usize>, Seq<(usize, usize)>),
    b: (Seq<usize>, Seq<(usize, usize)>),
) -> (Seq<usize>, Seq<(usize, usize)>) {
    (a.0 + b.0, a.1 + b.1)
}

pub open spec fn opt_cat(
    a: Option<(Seq<usize>, Seq<(usize, usize)>)>,
    b: Option<(Seq<usize>, Seq<(usize, usize)>)>,
) -> Option<(Seq<usize>, Seq<(usize, usize)>)> {
    match (a, b) {
        (Some(x), Some(y)) => Some(seq_pair_cat(x, y)),
        _ => None,
    }
}

/// The phi occurrences and registrations of the subtree rooted at block
/// `b`, in visit order: the block's own phi sub-list first, then each
/// instruction's nested blocks in fixed order. `None` reports an
/// inconsistent graph: an out-of-range handle, a phi-list entry that is
/// not a phi, or a nested block that does not come strictly after its
/// container.
pub open spec fn walk_block(f: IrFunction, b: int) -> Option<(Seq<usize>, Seq<(usize, usize)>)>
    decreases f.blocks@.len() - b, 2int, 0int, 0int, 0int,
{
    if !(0 <= b < f.blocks@.len()) {
        None
    } else {
        let blk = f.blocks@[b];
        if !phis_wf(f, blk.phis@) {
            None
        } else {
            match walk_insts(f, b, 0) {
                None => None,
                Some(rest) => Some(
                    (blk.phis@ + rest.0, phi_events_of(f, blk.phis@) + rest.1),
                ),
            }
        }
    }
}

pub open spec fn walk_insts(f: IrFunction, b: int, i: int) -> Option<
    (Seq<usize>, Seq<(usize, usize)>),
>
    decreases f.blocks@.len() - b, 1int, f.blocks@[b].insts@.len() - i, 1int, 0int,
{
    if !(0 <= b < f.blocks@.len()) {
        None
    } else if i >= f.blocks@[b].insts@.len() {
        Some((Seq::empty(), Seq::empty()))
    } else if i < 0 {
        None
    } else {
        let nid = f.blocks@[b].insts@[i];
        if !(nid < f.nodes@.len()) {
            None
        } else {
            let sub = match f.nodes@[nid as int].inst {
                Instruction::If { true_branch, false_branch } => opt_cat(
                    walk_child(f, b, true_branch),
                    walk_child(f, b, false_branch),
                ),
                Instruction::Switch { default, cases } => opt_cat(
                    walk_child(f, b, default),
                    walk_cases(f, b, cases@, 0),
                ),
                Instruction::GenericLoop { prepare, body, update } => opt_cat(
                    walk_child(f, b, prepare),
                    opt_cat(walk_child(f, b, body), walk_child(f, b, update)),
                ),
                Instruction::RayQuery { on_triangle_hit, on_procedural_hit } => opt_cat(
                    walk_child(f, b, on_triangle_hit),
                    walk_child(f, b, on_procedural_hit),
                ),
                Instruction::FwdAutodiff { body } => walk_child(f, b, body),
                Instruction::RevAutodiff { body } => walk_child(f, b, body),
                _ => Some((Seq::empty(), Seq::empty())),
            };
            opt_cat(sub, walk_insts(f, b, i + 1))
        }
    }
}

pub open spec fn walk_cases(f: IrFunction, b: int, cases: Seq<SwitchCase>, j: int) -> Option<
    (Seq<usize>, Seq<(usize, usize)>),
>
    decreases f.blocks@.len() - b, 0int, cases.len() - j, 1int, 0int,
{
    if j >= cases.len() {
        Some((Seq::empty(), Seq::empty()))
    } else if j < 0 {
        None
    } else {
        opt_cat(walk_child(f, b, cases[j].block), walk_cases(f, b, cases, j + 1))
    }
}

pub open spec fn walk_child(f: IrFunction, b: int, c: usize) -> Option<
    (Seq<usize>, Seq<(usize, usize)>),
>
    decreases f.blocks@.len() - b, 0int, 0int, 0int, 0int,
{
    if b < c < f.blocks@.len() {
        walk_block(f, c as int)
    } else {
        None
    }
}

// ---------------------------------------------------------------------------
// The collector
// ---------------------------------------------------------------------------

/// Walks one function's control-flow graph, accumulating the ordered
/// global phi set and the predecessor-block to phi-list map.
pub struct PhiCollector {
    pub phis: indexmap::IndexSet<usize>,
    pub phis_per_block: indexmap::IndexMap<usize, Vec<usize>>,
}

impl PhiCollector {
    /// The collected phis, in first-visit order.
    pub open spec fn phi_seq(&self) -> Seq<usize> {
        phi_set_elems(self.phis)
    }

    pub open spec fn pred_state(&self) -> PredState {
        PredState {
            keys: pred_map_keys(self.phis_per_block),
            vals: pred_map_vals(self.phis_per_block),
        }
    }

    pub fn new() -> (r: Self)
        ensures
            r.phi_seq() == Seq::<usize>::empty(),
            r.pred_state().keys == Seq::<usize>::empty(),
            r.pred_state().vals == Map::<usize, Seq<usize>>::empty(),
    {
        PhiCollector { phis: phi_set_new(), phis_per_block: pred_map_new() }
    }

    /// The collected phi set, in first-visit order.
    pub fn phi_list(&self) -> (r: Vec<usize>)
        ensures
            r@ == self.phi_seq(),
    {
        phi_set_items(&self.phis)
    }

    /// The predecessor blocks that have phis, in first-registration order.
    pub fn pred_blocks(&self) -> (r: Vec<usize>)
        ensures
            r@ == self.pred_state().keys,
    {
        pred_map_key_list(&self.phis_per_block)
    }

    /// The phis incoming from block `b`, in registration order.
    pub fn phis_of_block(&self, b: usize) -> (r: Option<Vec<usize>>)
        ensures
            self.pred_state().keys.contains(b) ==> (r matches Some(v) && self.pred_state(
            ).vals.contains_key(b) && v@ == self.pred_state().vals[b]),
            !self.pred_state().keys.contains(b) ==> r is None,
    {
        pred_map_get(&self.phis_per_block, b)
    }

    /// Registers one (predecessor, phi) pair.
    fn push_event(&mut self, pred: usize, p: usize)
        ensures
            final(self).phi_seq() == old(self).phi_seq(),
            final(self).pred_state() == add_event(old(self).pred_state(), (pred, p)),
    {
        let got = pred_map_get(&self.phis_per_block, pred);
        match got {
            Some(mut v) => {
                v.push(p);
                pred_map_insert(&mut self.phis_per_block, pred, v);
            },
            None => {
                let mut v: Vec<usize> = Vec::new();
                v.push(p);
                pred_map_insert(&mut self.phis_per_block, pred, v);
            },
        }
        proof {
            assert(final(self).pred_state() =~= add_event(old(self).pred_state(), (pred, p)));
        }
    }

    /// Visits one nested block, checking that it comes strictly after its
    /// container.
    fn visit_child(&mut self, f: &IrFunction, parent: usize, child: usize) -> (r: Result<
        (),
        CodegenError,
    >)
        requires
            parent < f.blocks@.len(),
        ensures
            match r {
                Ok(()) => walk_child(*f, parent as int, child) matches Some(pr) && final(self).phi_seq() == add_phis(old(self).phi_seq(), pr.0) && final(self).pred_state()
                    == add_events(old(self).pred_state(), pr.1),
                Err(e) => e == CodegenError::InconsistentControlFlow && walk_child(
                    *f,
                    parent as int,
                    child,
                ) is None,
            },
        decreases f.blocks@.len() - parent, 0int,
    {
        if child <= parent || child >= f.blocks.len() {
            return Err(CodegenError::InconsistentControlFlow);
        }
        self.visit_block(f, child)
    }

    /// Visits the nested blocks of one instruction, in the fixed order of
    /// the traversal model; instructions without nested blocks contribute
    /// nothing.
    #[verifier::loop_isolation(false)]
    #[verifier::rlimit(100)]
    fn visit_inst(&mut self, f: &IrFunction, block: usize, nid: usize) -> (r: Result<
        (),
        CodegenError,
    >)
        requires
            block < f.blocks@.len(),
            nid < f.nodes@.len(),
        ensures
            match r {
                Ok(()) => walk_sub(*f, block as int, nid) matches Some(pr) && final(self).phi_seq() == add_phis(old(self).phi_seq(), pr.0) && final(self).pred_state()
                    == add_events(old(self).pred_state(), pr.1),
                Err(e) => e == CodegenError::InconsistentControlFlow && walk_sub(
                    *f,
                    block as int,
                    nid,
                ) is None,
            },
        decreases f.blocks@.len() - block, 1int,
    {
        let ghost set_pre = old(self).phi_seq();
        let ghost pred_pre = old(self).pred_state();
        match &f.nodes[nid].inst {
            Instruction::If { true_branch, false_branch } => {
                let pr1 = self.visit_child(f, block, *true_branch);
                if let Err(e) = pr1 {
                    return Err(e);
                }
                let pr2 = self.visit_child(f, block, *false_branch);
                if let Err(e) = pr2 {
                    return Err(e);
                }
                proof {
                    let a = walk_child(*f, block as int, *true_branch)->Some_0;
                    let b = walk_child(*f, block as int, *false_branch)->Some_0;
                    lemma_add_phis_app(set_pre, a.0, b.0);
                    lemma_add_events_app(pred_pre, a.1, b.1);
                }
            },
            Instruction::Switch { default, cases } => {
                let prd = self.visit_child(f, block, *default);
                if let Err(e) = prd {
                    return Err(e);
                }
                let ncases = cases.len();
                let mut j: usize = 0;
                let ghost set_sw = self.phi_seq();
                let ghost pred_sw = self.pred_state();
                let mut cocc = Ghost(Seq::<usize>::empty());
                let mut cevs = Ghost(Seq::<(usize, usize)>::empty());
                proof {
                    if walk_cases(*f, block as int, cases@, 0) is Some {
                        let rest = walk_cases(*f, block as int, cases@, 0)->Some_0;
                        assert(Seq::<usize>::empty() + rest.0 =~= rest.0);
                        assert(Seq::<(usize, usize)>::empty() + rest.1 =~= rest.1);
                    }
                }
                while j < ncases
                    invariant
                        j <= ncases,
                        ncases == cases@.len(),
                        self.phi_seq() == add_phis(set_sw, cocc@),
                        self.pred_state() == add_events(pred_sw, cevs@),
                        walk_cases(*f, block as int, cases@, 0) == (match walk_cases(
                            *f,
                            block as int,
                            cases@,
                            j as int,
                        ) {
                            None => None::<(Seq<usize>, Seq<(usize, usize)>)>,
                            Some(rest) => Some((cocc@ + rest.0, cevs@ + rest.1)),
                        }),
                    decreases ncases - j,
                {
                    let cb = cases[j].block;
                    let prc = self.visit_child(f, block, cb);
                    if let Err(e) = prc {
                        proof {
                            assert(walk_cases(*f, block as int, cases@, j as int) is None);
                            assert(walk_cases(*f, block as int, cases@, 0) is None);
                        }
                        return Err(e);
                    }
                    proof {
                        let c = walk_child(*f, block as int, cb)->Some_0;
                        lemma_add_phis_app(set_sw, cocc@, c.0);
                        lemma_add_events_app(pred_sw, cevs@, c.1);
                        if walk_cases(*f, block as int, cases@, j as int + 1) is Some {
                            let rest = walk_cases(*f, block as int, cases@, j as int + 1)->Some_0;
                            assert(cocc@ + (c.0 + rest.0) =~= (cocc@ + c.0) + rest.0);
                            assert(cevs@ + (c.1 + rest.1) =~= (cevs@ + c.1) + rest.1);
                        }
                    }
                    cocc = Ghost(cocc@ + walk_child(*f, block as int, cb)->Some_0.0);
                    cevs = Ghost(cevs@ + walk_child(*f, block as int, cb)->Some_0.1);
                    j = j + 1;
                }
                proof {
                    let a = walk_child(*f, block as int, *default)->Some_0;
                    assert(walk_cases(*f, block as int, cases@, ncases as int) == Some(
                        (Seq::<usize>::empty(), Seq::<(usize, usize)>::empty()),
                    ));
                    assert(cocc@ + Seq::<usize>::empty() =~= cocc@);
                    assert(cevs@ + Seq::<(usize, usize)>::empty() =~= cevs@);
                    assert(walk_cases(*f, block as int, cases@, 0) == Some((cocc@, cevs@)));
                    lemma_add_phis_app(set_pre, a.0, cocc@);
                    lemma_add_events_app(pred_pre, a.1, cevs@);
                }
            },
            Instruction::GenericLoop { prepare, body, update } => {
                let pr1 = self.visit_child(f, block, *prepare);
                if let Err(e) = pr1 {
                    return Err(e);
                }
                let pr2 = self.visit_child(f, block, *body);
                if let Err(e) = pr2 {
                    return Err(e);
                }
                let pr3 = self.visit_child(f, block, *update);
                if let Err(e) = pr3 {
                    return Err(e);
                }
                proof {
                    let a = walk_child(*f, block as int, *prepare)->Some_0;
                    let b = walk_child(*f, block as int, *body)->Some_0;
                    let c = walk_child(*f, block as int, *update)->Some_0;
                    lemma_add_phis_app(set_pre, a.0, b.0);
                    lemma_add_phis_app(set_pre, a.0 + b.0, c.0);
                    lemma_add_events_app(pred_pre, a.1, b.1);
                    lemma_add_events_app(pred_pre, a.1 + b.1, c.1);
                    assert(a.0 + (b.0 + c.0) =~= (a.0 + b.0) + c.0);
                    assert(a.1 + (b.1 + c.1) =~= (a.1 + b.1) + c.1);
                }
            },
            Instruction::RayQuery { on_triangle_hit, on_procedural_hit } => {
                let pr1 = self.visit_child(f, block, *on_triangle_hit);
                if let Err(e) = pr1 {
                    return Err(e);
                }
                let pr2 = self.visit_child(f, block, *on_procedural_hit);
                if let Err(e) = pr2 {
                    return Err(e);
                }
                proof {
                    let a = walk_child(*f, block as int, *on_triangle_hit)->Some_0;
                    let b = walk_child(*f, block as int, *on_procedural_hit)->Some_0;
                    lemma_add_phis_app(set_pre, a.0, b.0);
                    lemma_add_events_app(pred_pre, a.1, b.1);
                }
            },
            Instruction::FwdAutodiff { body } => {
                let pr1 = self.visit_child(f, block, *body);
                if let Err(e) = pr1 {
                    return Err(e);
                }
            },
            Instruction::RevAutodiff { body } => {
                let pr1 = self.visit_child(f, block, *body);
                if let Err(e) = pr1 {
                    return Err(e);
                }
            },
            _ => {
                proof {
                    assert(walk_sub(*f, block as int, nid) == Some(
                        (Seq::<usize>::empty(), Seq::<(usize, usize)>::empty()),
                    ));
                    assert(self.phi_seq() =~= add_phis(set_pre, Seq::<usize>::empty()));
                }
            },
        }
        Ok(())
    }

    /// Walks the subtree rooted at `block`: registers each directly
    /// declared phi into the ordered set (once) and onto each of its
    /// predecessors' lists, then recurses into the nested blocks of each
    /// instruction in fixed order. Reports `InconsistentControlFlow`
    /// exactly on graphs the traversal model rejects.
    #[verifier::rlimit(100)]
    pub fn visit_block(&mut self, f: &IrFunction, block: usize) -> (r: Result<(), CodegenError>)
        ensures
            match r {
                Ok(()) => walk_block(*f, block as int) matches Some(pr) && final(self).phi_seq()
                    == add_phis(old(self).phi_seq(), pr.0) && final(self).pred_state()
                    == add_events(old(self).pred_state(), pr.1),
                Err(e) => e == CodegenError::InconsistentControlFlow && walk_block(
                    *f,
                    block as int,
                ) is None,
            },
        decreases f.blocks@.len() - block, 2int,
    {
        let nblocks = f.blocks.len();
        if block >= nblocks {
            proof {
                assert(walk_block(*f, block as int) is None);
            }
            return Err(CodegenError::InconsistentControlFlow);
        }
        let ghost st0_set = old(self).phi_seq();
        let ghost st0_pred = old(self).pred_state();
        let ghost bphis = f.blocks@[block as int].phis@;
        let nphis = f.blocks[block].phis.len();
        let mut i: usize = 0;
        proof {
            assert(bphis.take(0) =~= Seq::<usize>::empty());
        }
        while i < nphis
            invariant
                i <= nphis,
                block < f.blocks@.len(),
                nphis == bphis.len(),
                bphis == f.blocks@[block as int].phis@,
                st0_set == old(self).phi_seq(),
                st0_pred == old(self).pred_state(),
                phis_wf(*f, bphis.take(i as int)),
                self.phi_seq() == add_phis(st0_set, bphis.take(i as int)),
                self.pred_state() == add_events(st0_pred, phi_events_of(*f, bphis.take(i as int))),
            decreases nphis - i,
        {
            let p = f.blocks[block].phis[i];
            if p >= f.nodes.len() {
                proof {
                    assert(!(bphis[i as int] < f.nodes@.len()));
                    assert(!phis_wf(*f, bphis));
                    assert(walk_block(*f, block as int) is None);
                }
                return Err(CodegenError::InconsistentControlFlow);
            }
            let ghost set_before = self.phi_seq();
            let ghost pred_before = self.pred_state();
            match &f.nodes[p].inst {
                Instruction::Phi { incomings } => {
                    let _inserted = phi_set_insert(&mut self.phis, p);
                    let ninc = incomings.len();
                    let mut k: usize = 0;
                    proof {
                        assert(incomings@.take(0) =~= Seq::<PhiIncoming>::empty());
                        assert(incoming_events(p, incomings@.take(0)) =~= Seq::<
                            (usize, usize),
                        >::empty());
                        assert(add_events(pred_before, incoming_events(p, incomings@.take(0)))
                            =~= pred_before);
                    }
                    while k < ninc
                        invariant
                            k <= ninc,
                            p < f.nodes@.len(),
                            f.nodes@[p as int].inst matches Instruction::Phi {
                                incomings: ghost_incs,
                            } && ghost_incs@ == incomings@,
                            ninc == incomings@.len(),
                            self.phi_seq() == add_phi(set_before, p),
                            self.pred_state() == add_events(
                                pred_before,
                                incoming_events(p, incomings@.take(k as int)),
                            ),
                        decreases ninc - k,
                    {
                        let inc = incomings[k];
                        self.push_event(inc.block, p);
                        proof {
                            let evs = incoming_events(p, incomings@.take(k as int + 1));
                            assert(evs.drop_last() =~= incoming_events(
                                p,
                                incomings@.take(k as int),
                            ));
                            assert(evs.last() == (incomings@[k as int].block, p));
                        }
                        k = k + 1;
                    }
                    proof {
                        assert(incomings@.take(ninc as int) =~= incomings@);
                        assert(bphis.take(i as int + 1).drop_last() =~= bphis.take(i as int));
                        assert(bphis.take(i as int + 1).last() == bphis[i as int]);
                        assert(incomings_of(*f, p) == incomings@);
                        assert(phi_events_of(*f, bphis.take(i as int + 1)) == phi_events_of(
                            *f,
                            bphis.take(i as int),
                        ) + incoming_events(p, incomings@));
                        lemma_add_events_app(
                            st0_pred,
                            phi_events_of(*f, bphis.take(i as int)),
                            incoming_events(p, incomings@),
                        );
                        assert(phis_wf(*f, bphis.take(i as int + 1)));
                    }
                },
                _ => {
                    proof {
                        assert(!(f.nodes@[bphis[i as int] as int].inst is Phi));
                        assert(!phis_wf(*f, bphis));
                        assert(walk_block(*f, block as int) is None);
                    }
                    return Err(CodegenError::InconsistentControlFlow);
                },
            }
            i = i + 1;
        }
        proof {
            assert(bphis.take(nphis as int) =~= bphis);
            assert(phis_wf(*f, bphis));
        }
        // Now the ordered instruction sequence, recursing into nested blocks.
        let ghost set_after_phis = self.phi_seq();
        let ghost pred_after_phis = self.pred_state();
        let ninsts = f.blocks[block].insts.len();
        let ghost binsts = f.blocks@[block as int].insts@;
        let mut occ = Ghost(Seq::<usize>::empty());
        let mut evs = Ghost(Seq::<(usize, usize)>::empty());
        let mut i2: usize = 0;
        while i2 < ninsts
            invariant
                i2 <= ninsts,
                block < f.blocks@.len(),
                ninsts == binsts.len(),
                binsts == f.blocks@[block as int].insts@,
                bphis == f.blocks@[block as int].phis@,
                phis_wf(*f, bphis),
                st0_set == old(self).phi_seq(),
                st0_pred == old(self).pred_state(),
                set_after_phis == add_phis(st0_set, bphis),
                pred_after_phis == add_events(st0_pred, phi_events_of(*f, bphis)),
                self.phi_seq() == add_phis(set_after_phis, occ@),
                self.pred_state() == add_events(pred_after_phis, evs@),
                walk_insts(*f, block as int, 0) == (match walk_insts(*f, block as int, i2 as int) {
                    None => None::<(Seq<usize>, Seq<(usize, usize)>)>,
                    Some(rest) => Some((occ@ + rest.0, evs@ + rest.1)),
                }),
            decreases ninsts - i2,
        {
            let nid = f.blocks[block].insts[i2];
            if nid >= f.nodes.len() {
                proof {
                    assert(walk_insts(*f, block as int, i2 as int) is None);
                    lemma_block_err(*f, block as int, i2 as int, occ@, evs@);
                }
                return Err(CodegenError::InconsistentControlFlow);
            }
            let ghost set_pre = self.phi_seq();
            let ghost pred_pre = self.pred_state();
            let ghost sub = walk_sub(*f, block as int, nid);
            let res = self.visit_inst(f, block, nid);
            if let Err(e) = res {
                proof {
                    assert(walk_insts(*f, block as int, i2 as int) == opt_cat(
                        sub,
                        walk_insts(*f, block as int, i2 as int + 1),
                    ));
                    assert(walk_insts(*f, block as int, i2 as int) is None);
                    lemma_block_err(*f, block as int, i2 as int, occ@, evs@);
                }
                return Err(e);
            }
            proof {
                let spr = sub->Some_0;
                assert(self.phi_seq() == add_phis(set_pre, spr.0));
                assert(self.pred_state() == add_events(pred_pre, spr.1));
                lemma_add_phis_app(set_after_phis, occ@, spr.0);
                lemma_add_events_app(pred_after_phis, evs@, spr.1);
                assert(walk_insts(*f, block as int, i2 as int) == opt_cat(
                    sub,
                    walk_insts(*f, block as int, i2 as int + 1),
                ));
                if walk_insts(*f, block as int, i2 as int + 1) is Some {
                    let rest = walk_insts(*f, block as int, i2 as int + 1)->Some_0;
                    assert(occ@ + (spr.0 + rest.0) =~= (occ@ + spr.0) + rest.0);
                    assert(evs@ + (spr.1 + rest.1) =~= (evs@ + spr.1) + rest.1);
                }
            }
            occ = Ghost(occ@ + walk_sub(*f, block as int, nid)->Some_0.0);
            evs = Ghost(evs@ + walk_sub(*f, block as int, nid)->Some_0.1);
            i2 = i2 + 1;
        }
        proof {
            assert(walk_insts(*f, block as int, ninsts as int) == Some(
                (Seq::<usize>::empty(), Seq::<(usize, usize)>::empty()),
            ));
            assert(occ@ + Seq::<usize>::empty() =~= occ@);
            assert(evs@ + Seq::<(usize, usize)>::empty() =~= evs@);
            assert(walk_insts(*f, block as int, 0) == Some((occ@, evs@)));
            assert(walk_block(*f, block as int) == Some(
                (bphis + occ@, phi_events_of(*f, bphis) + evs@),
            ));
            lemma_add_phis_app(st0_set, bphis, occ@);
            lemma_add_events_app(st0_pred, phi_events_of(*f, bphis), evs@);
        }
        Ok(())
    }
}

/// If the instruction suffix rejects the graph, the whole block does.
proof fn lemma_block_err(
    f: IrFunction,
    block: int,
    i2: int,
    occ: Seq<usize>,
    evs: Seq<(usize, usize)>,
)
    requires
        0 <= block < f.blocks@.len(),
        phis_wf(f, f.blocks@[block].phis@),
        walk_insts(f, block, 0) == (match walk_insts(f, block, i2) {
            None => None::<(Seq<usize>, Seq<(usize, usize)>)>,
            Some(rest) => Some((occ + rest.0, evs + rest.1)),
        }),
        walk_insts(f, block, i2) is None,
    ensures
        walk_block(f, block) is None,
{
    assert(walk_insts(f, block, 0) is None);
}

/// The contribution of the nested blocks of instruction `nid` inside
/// block `b`: the `sub` term of the traversal model.
pub open spec fn walk_sub(f: IrFunction, b: int, nid: usize) -> Option<
    (Seq<usize>, Seq<(usize, usize)>),
> {
    match f.nodes@[nid as int].inst {
        Instruction::If { true_branch, false_branch } => opt_cat(
            walk_child(f, b, true_branch),
            walk_child(f, b, false_branch),
        ),
        Instruction::Switch { default, cases } => opt_cat(
            walk_child(f, b, default),
            walk_cases(f, b, cases@, 0),
        ),
        Instruction::GenericLoop { prepare, body, update } => opt_cat(
            walk_child(f, b, prepare),
            opt_cat(walk_child(f, b, body), walk_child(f, b, update)),
        ),
        Instruction::RayQuery { on_triangle_hit, on_procedural_hit } => opt_cat(
            walk_child(f, b, on_triangle_hit),
            walk_child(f, b, on_procedural_hit),
        ),
        Instruction::FwdAutodiff { body } => walk_child(f, b, body),
        Instruction::RevAutodiff { body } => walk_child(f, b, body),
        _ => Some((Seq::empty(), Seq::empty())),
    }
}

/// The registrations that name block `k` as predecessor, in order.
pub open spec fn events_to(es: Seq<(usize, usize)>, k: usize) -> Seq<usize>
    decreases es.len(),
{
    if es.len() == 0 {
        Seq::empty()
    } else {
        let pre = events_to(es.drop_last(), k);
        if es.last().0 == k {
            pre.push(es.last().1)
        } else {
            pre
        }
    }
}

proof fn lemma_add_events_at(st: PredState, es: Seq<(usize, usize)>, k: usize)
    ensures
        add_events(st, es).keys.contains(k) <==> st.keys.contains(k) || events_to(es, k).len()
            > 0,
        st.keys.contains(k) ==> add_events(st, es).vals[k] == st.vals[k] + events_to(es, k),
        !st.keys.contains(k) && events_to(es, k).len() > 0 ==> add_events(st, es).vals[k]
            == events_to(es, k),
    decreases es.len(),
{
    if es.len() == 0 {
        if st.keys.contains(k) {
            assert(st.vals[k] + events_to(es, k) =~= st.vals[k]);
        }
    } else {
        lemma_add_events_at(st, es.drop_last(), k);
        let mid = add_events(st, es.drop_last());
        let e = es.last();
        assert(add_events(st, es) == add_event(mid, e));
        if e.0 == k {
            if st.keys.contains(k) {
                assert(mid.keys.contains(k));
                assert(add_event(mid, e).vals[k] == mid.vals[k].push(e.1));
                assert(st.vals[k] + events_to(es, k) =~= (st.vals[k] + events_to(
                    es.drop_last(),
                    k,
                )).push(e.1));
            } else {
                if events_to(es.drop_last(), k).len() > 0 {
                    assert(mid.keys.contains(k));
                    assert(add_event(mid, e).vals[k] == events_to(es.drop_last(), k).push(e.1));
                    assert(events_to(es, k) =~= events_to(es.drop_last(), k).push(e.1));
                } else {
                    assert(!mid.keys.contains(k));
                    assert(add_event(mid, e).vals[k] == Seq::<usize>::empty().push(e.1));
                    assert(events_to(es, k) =~= Seq::<usize>::empty().push(e.1));
                }
            }
            assert(add_event(mid, e).keys.contains(k)) by {
                if !mid.keys.contains(k) {
                    assert(add_event(mid, e).keys.last() == k);
                }
            }
        } else {
            assert(add_event(mid, e).vals[k] == mid.vals[k]);
            assert(events_to(es, k) == events_to(es.drop_last(), k));
            assert(add_event(mid, e).keys.contains(k) <==> mid.keys.contains(k)) by {
                if !mid.keys.contains(e.0) {
                    if add_event(mid, e).keys.contains(k) && !mid.keys.contains(k) {
                        let w = choose|w: int|
                            0 <= w < add_event(mid, e).keys.len() && add_event(mid, e).keys[w]
                                == k;
                        if w < mid.keys.len() {
                            assert(mid.keys[w] == k);
                        }
                    }
                    if mid.keys.contains(k) {
                        let w = choose|w: int|
                            0 <= w < mid.keys.len() && mid.keys[w] == k;
                        assert(add_event(mid, e).keys[w] == k);
                    }
                }
            }
        }
    }
}

/// The predecessor map built from a registration sequence holds, for each
/// block, exactly the phis registered from it, in registration order: a
/// block appears as a key if and only if some registration names it, and
/// its list is that block's registrations in order.
pub proof fn lemma_pred_map_lists_exactly(es: Seq<(usize, usize)>, k: usize)
    ensures
        ({
            let st = add_events(PredState { keys: Seq::empty(), vals: Map::empty() }, es);
            &&& (st.keys.contains(k) <==> events_to(es, k).len() > 0)
            &&& (st.keys.contains(k) ==> st.vals[k] == events_to(es, k))
        }),
{
    let st0 = PredState { keys: Seq::empty(), vals: Map::empty() };
    assert(!st0.keys.contains(k));
    lemma_add_events_at(st0, es, k);
}

} // verus!
