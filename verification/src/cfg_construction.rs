//! Construction of a control flow graph in SSA form from the body of a template
//! or a function, by the on-the-fly algorithm of Braun et al.: every read of a
//! variable looks for its current SSA name, through the predecessors of the
//! block when it was not written there, placing φ-functions where paths join
//! and removing those that turn out trivial.

use vstd::prelude::*;

use crate::ast::{blocks_reached, jumps_ok, ops_reached, ASTNode, Function, Template};
use crate::cfg::{
    defined_twice_message, duplicate_possibilities, names_view, opt_succ, poss_view, statement_total, use_block, use_precedes, LineInstruction,
    PhiFunction, PhiPossibility, SpecSuccessor, Statement, Use, Value, CFG, BasicBlock, succ_targets,
};
use crate::collections::{copy_items, lemma_seq_map_entry, ItemSet, NameMap, Ranked};
use crate::liveness::{live_by_chain, live_in_empty, live_in_exact, not_defined_message, not_dominated_message};
use crate::text::{decimal, owned, push_char, push_padded_decimal, push_text, same_text, zero_padded};
use crate::types::{
    atomic_vars, expr_vars, get_variable_names, Atomic, Expression, NumericType, Operator, Parameter, SpecAtomic,
    SpecExpression, SpecParameter,
};

verus! {

broadcast use vstd::string::group_string_axioms;

/// How deeply the lookups of one read may nest before the read gives up.
pub const LOOKUP_FUEL: usize = 1000000;

/// A place that holds an SSA name while the graph is built.
#[derive(Clone, Copy, Debug, PartialEq, Eq, Structural)]
pub enum UseTemp {
    /// The block has memorized the name as the current value of a variable.
    InMemoization(usize),
    /// An instruction or a branch condition of the block reads the name.
    InBlock(Use),
}

impl Ranked for UseTemp {
    fn same(&self, other: &Self) -> (r: bool) {
        match (self, other) {
            (UseTemp::InMemoization(a), UseTemp::InMemoization(b)) => *a == *b,
            (UseTemp::InBlock(a), UseTemp::InBlock(b)) => a.same(b),
            _ => false,
        }
    }

    open spec fn precedes(&self, other: &Self) -> bool {
        match (*self, *other) {
            (UseTemp::InMemoization(a), UseTemp::InMemoization(b)) => a < b,
            (UseTemp::InMemoization(_), UseTemp::InBlock(_)) => true,
            (UseTemp::InBlock(_), UseTemp::InMemoization(_)) => false,
            (UseTemp::InBlock(a), UseTemp::InBlock(b)) => use_precedes(a, b),
        }
    }

    fn before(&self, other: &Self) -> (r: bool) {
        match (self, other) {
            (UseTemp::InMemoization(a), UseTemp::InMemoization(b)) => *a < *b,
            (UseTemp::InMemoization(_), UseTemp::InBlock(_)) => true,
            (UseTemp::InBlock(_), UseTemp::InMemoization(_)) => false,
            (UseTemp::InBlock(a), UseTemp::InBlock(b)) => a.before(b),
        }
    }
    proof fn lemma_precedes_order(a: Self, b: Self, c: Self) {
    }
}

/// The block that holds a place.
pub open spec fn temp_block(u: UseTemp) -> usize {
    match u {
        UseTemp::InMemoization(b) => b,
        UseTemp::InBlock(x) => use_block(x),
    }
}

/// The SSA name with number `n`: `v` followed by `n` in at least three digits.
pub open spec fn ssa_name(n: nat) -> Seq<char> {
    seq!['v'] + zero_padded(decimal(n), 3)
}

pub open spec fn phi_missing_message(v: Seq<char>) -> Seq<char> {
    "Phi node '"@ + v + "' missing"@
}

pub open spec fn condition_parameter_message() -> Seq<char> {
    "The condition of a branch cannot be a parameter for a function"@
}

pub open spec fn declaration_missing_message() -> Seq<char> {
    "Declaration not found"@
}

pub open spec fn lookup_too_deep_message() -> Seq<char> {
    "Variable lookup nested too deeply"@
}

pub open spec fn too_many_blocks_message() -> Seq<char> {
    "Too many blocks"@
}

/// `x` is what reading `a` can give: a variable for a variable, anything else unchanged.
pub open spec fn atomic_read_shape(a: SpecAtomic, x: SpecAtomic) -> bool {
    match a {
        SpecAtomic::Variable(_) => x is Variable,
        _ => x == a,
    }
}

/// `q` is `p` with each of its atomics read as `atomic_read_shape` allows.
pub open spec fn parameter_read_shape(p: SpecParameter, q: SpecParameter) -> bool {
    match (p, q) {
        (SpecParameter::Signal { index: i1, size: s1 }, SpecParameter::Signal { index: i2, size: s2 }) => atomic_read_shape(
            i1,
            i2,
        ) && atomic_read_shape(s1, s2),
        (
            SpecParameter::SubcmpSignal { component: c1, index: i1, size: s1 },
            SpecParameter::SubcmpSignal { component: c2, index: i2, size: s2 },
        ) => atomic_read_shape(c1, c2) && atomic_read_shape(i1, i2) && atomic_read_shape(s1, s2),
        (SpecParameter::I64Memory { index: i1, size: s1 }, SpecParameter::I64Memory { index: i2, size: s2 }) => atomic_read_shape(
            i1,
            i2,
        ) && atomic_read_shape(s1, s2),
        (SpecParameter::FfMemory { index: i1, size: s1 }, SpecParameter::FfMemory { index: i2, size: s2 }) => atomic_read_shape(
            i1,
            i2,
        ) && atomic_read_shape(s1, s2),
        _ => false,
    }
}

/// `f` is `e` with each of its atomics read as `atomic_read_shape` allows.
pub open spec fn expr_read_shape(e: SpecExpression, f: SpecExpression) -> bool {
    match (e, f) {
        (SpecExpression::Atomic(a), SpecExpression::Atomic(x)) => atomic_read_shape(a, x),
        (SpecExpression::Parameter(p), SpecExpression::Parameter(q)) => parameter_read_shape(p, q),
        _ => false,
    }
}

proof fn lemma_concat_contains(a: Seq<Seq<char>>, b: Seq<Seq<char>>, k: Seq<char>)
    ensures
        (a + b).contains(k) ==> a.contains(k) || b.contains(k),
{
    if (a + b).contains(k) {
        let j = choose|j: int| 0 <= j < (a + b).len() && (a + b)[j] == k;
        if j >= a.len() {
            assert(b[j - a.len()] == k);
        }
    }
}

/// Operand `q` of the possibilities `pv` is a name other than the φ-node `phi` itself.
pub open spec fn other_operand(pv: Seq<(Seq<char>, usize)>, phi: Seq<char>, q: int) -> bool {
    0 <= q < pv.len() && pv[q].0 != phi
}

/// Besides `phi` itself, the operands name at least one variable.
pub open spec fn has_other(pv: Seq<(Seq<char>, usize)>, phi: Seq<char>) -> bool {
    exists|q: int| #[trigger] other_operand(pv, phi, q)
}

/// Besides `phi` itself, the operands name at least two different variables.
pub open spec fn merges_two(pv: Seq<(Seq<char>, usize)>, phi: Seq<char>) -> bool {
    exists|q1: int, q2: int| #[trigger] other_operand(pv, phi, q1) && #[trigger] other_operand(pv, phi, q2) && pv[q1].0 != pv[q2].0
}

/// A name that an operand other than `phi` gives.
pub open spec fn the_other(pv: Seq<(Seq<char>, usize)>, phi: Seq<char>) -> Seq<char> {
    pv[choose|q: int| #[trigger] other_operand(pv, phi, q)].0
}

/// The body runs straight on from its start: it holds only operations up to its
/// first `break`, `continue` or operation with the `Error` operator, or its end.
pub open spec fn straight(body: Seq<ASTNode>) -> bool
    decreases body,
{
    if body.len() == 0 {
        true
    } else {
        match body[0] {
            ASTNode::Operation { operator, .. } => operator == Some(Operator::Error) || straight(body.drop_first()),
            ASTNode::Break => true,
            ASTNode::Continue => true,
            _ => false,
        }
    }
}

/// The body holds only operations, none of them with the `Error` operator.
pub open spec fn plain(body: Seq<ASTNode>) -> bool {
    forall|i: int|
        0 <= i < body.len() ==> (#[trigger] body[i] matches ASTNode::Operation { operator, .. } && operator != Some(
            Operator::Error,
        ))
}

/// A plain body runs straight on.
pub proof fn lemma_plain_straight(body: Seq<ASTNode>)
    requires
        plain(body),
    ensures
        straight(body),
    decreases body.len(),
{
    if body.len() > 0 {
        assert(body[0] matches ASTNode::Operation { .. });
        assert forall|i: int| 0 <= i < body.drop_first().len() implies (#[trigger] body.drop_first()[i] matches ASTNode::Operation {
            operator,
            ..
        } && operator != Some(Operator::Error)) by {
            assert(body.drop_first()[i] == body[i + 1]);
        }
        lemma_plain_straight(body.drop_first());
    }
}

/// From `before` to `after` no block was removed, and every block of `before`
/// keeps its predecessors and the targets of its successor.
pub open spec fn links_kept(before: Seq<BasicBlock>, after: Seq<BasicBlock>) -> bool {
    &&& before.len() <= after.len()
    &&& forall|i: int|
        #![trigger after[i]]
        0 <= i < before.len() ==> after[i].predecessors@ == before[i].predecessors@ && succ_targets(after[i].successors)
            == succ_targets(before[i].successors)
}

/// A block has a successor exactly when its successor names a target.
pub proof fn lemma_targets_none(o: Option<crate::cfg::Successor>)
    ensures
        (succ_targets(o).len() == 0) == (o is None),
{
    match o {
        Some(crate::cfg::Successor::Unconditional { to }) => {
            assert(succ_targets(o) == seq![to]);
        },
        Some(crate::cfg::Successor::Conditional { to_then, to_else, .. }) => {
            assert(succ_targets(o) == seq![to_then, to_else]);
        },
        None => {},
    }
}

/// Keeping the links is transitive.
pub proof fn lemma_links_kept_trans(a: Seq<BasicBlock>, b: Seq<BasicBlock>, c: Seq<BasicBlock>)
    requires
        links_kept(a, b),
        links_kept(b, c),
    ensures
        links_kept(a, c),
{
    assert forall|i: int| #![trigger c[i]] 0 <= i < a.len() implies c[i].predecessors@ == a[i].predecessors@ && succ_targets(
        c[i].successors,
    ) == succ_targets(a[i].successors) by {
        assert(b[i].predecessors@ == a[i].predecessors@);
        assert(c[i].predecessors@ == b[i].predecessors@);
    }
}

/// The body does not stop early: it holds no `break`, no `continue` and no
/// operation with the `Error` operator at its top level.
pub open spec fn open_body(body: Seq<ASTNode>) -> bool {
    forall|i: int|
        0 <= i < body.len() ==> match #[trigger] body[i] {
            ASTNode::Operation { operator, .. } => operator != Some(Operator::Error),
            ASTNode::Break => false,
            ASTNode::Continue => false,
            _ => true,
        }
}

/// `i` is the entry or the exit of the loop of `loop_blocks`.
pub open spec fn is_loop_block(loop_blocks: Option<(usize, usize)>, i: int) -> bool {
    loop_blocks matches Some((e, x)) && (i == e || i == x)
}

/// From `before` to `after`, every block of `before` but `start` keeps the targets
/// of its successor, and its predecessors unless it is a block of the enclosing loop.
pub open spec fn outside_kept(before: Seq<BasicBlock>, after: Seq<BasicBlock>, start: usize, loop_blocks: Option<(usize, usize)>) -> bool {
    &&& before.len() <= after.len()
    &&& forall|i: int|
        #![trigger after[i]]
        0 <= i < before.len() && i != start ==> succ_targets(after[i].successors) == succ_targets(before[i].successors) && (
        !is_loop_block(loop_blocks, i) ==> after[i].predecessors@ == before[i].predecessors@)
}

/// Every block that ends with an error in `after` did so in `before`, or is `start`,
/// or was added from `n0` on.
pub open spec fn errors_added(before: Set<usize>, after: Set<usize>, start: usize, n0: nat) -> bool {
    forall|x: usize| #[trigger] after.contains(x) ==> before.contains(x) || x == start || n0 <= x
}

/// Block `p` belongs to the then branch of a conditional whose first block was
/// numbered `n0`: the branch's first block, or one that its body added.
pub open spec fn in_then_part(n0: nat, has_else: bool, then_blocks: nat, p: usize) -> bool {
    let first_added = n0 + 2 + if has_else { 1nat } else { 0nat };
    p == n0 || (first_added <= p < first_added + then_blocks)
}

/// Block `p` belongs to the else branch of a conditional whose first block was
/// numbered `n0`: the branch's first block, or one that its body added.
pub open spec fn in_else_part(n0: nat, then_blocks: nat, else_blocks: nat, p: usize) -> bool {
    p == n0 + 2 || (n0 + 3 + then_blocks <= p < n0 + 3 + then_blocks + else_blocks)
}

/// Linking `from` to `to` keeps every other block, but for the predecessors of `to`.
proof fn lemma_link_effect(a: Seq<BasicBlock>, b: Seq<BasicBlock>, from: usize, to: usize)
    requires
        from < a.len(),
        to < a.len(),
        b.len() == a.len(),
        a[from as int].successors.is_some() ==> b == a,
        a[from as int].successors.is_none() ==> {
            &&& b[to as int].predecessors@ == a[to as int].predecessors@.push(from)
            &&& from != to ==> b[to as int].successors == a[to as int].successors
            &&& forall|i: int| 0 <= i < a.len() && i != from && i != to ==> #[trigger] b[i] == a[i]
        },
    ensures
        outside_kept(a, b, from, Some((to, to))),
{
}

/// Keeping the blocks outside a step, step after step.
pub proof fn lemma_outside_trans(
    a: Seq<BasicBlock>,
    b: Seq<BasicBlock>,
    c: Seq<BasicBlock>,
    start: usize,
    lb: Option<(usize, usize)>,
    start2: usize,
    lb2: Option<(usize, usize)>,
)
    requires
        outside_kept(a, b, start, lb),
        outside_kept(b, c, start2, lb2),
        start2 == start || start2 >= a.len(),
        lb2 == lb || lb2 is None || (lb2 matches Some((e, x)) && e >= a.len() && x >= a.len()),
    ensures
        outside_kept(a, c, start, lb),
{
    assert forall|i: int| #![trigger c[i]] 0 <= i < a.len() && i != start implies succ_targets(c[i].successors) == succ_targets(
        a[i].successors,
    ) && (!is_loop_block(lb, i) ==> c[i].predecessors@ == a[i].predecessors@) by {
        assert(succ_targets(b[i].successors) == succ_targets(a[i].successors));
        assert(succ_targets(c[i].successors) == succ_targets(b[i].successors));
        if !is_loop_block(lb, i) {
            assert(b[i].predecessors@ == a[i].predecessors@);
            assert(!is_loop_block(lb2, i));
        }
    }
}

/// A step that keeps every link keeps the blocks outside it.
pub proof fn lemma_links_outside(a: Seq<BasicBlock>, b: Seq<BasicBlock>, start: usize, lb: Option<(usize, usize)>)
    requires
        links_kept(a, b),
    ensures
        outside_kept(a, b, start, lb),
{
    assert forall|i: int| #![trigger b[i]] 0 <= i < a.len() && i != start implies succ_targets(b[i].successors) == succ_targets(
        a[i].successors,
    ) && (!is_loop_block(lb, i) ==> b[i].predecessors@ == a[i].predecessors@) by {}
}

/// The body begins with a branch on a parameter.
pub open spec fn branches_on_parameter(body: Seq<ASTNode>) -> bool {
    body.len() > 0 && match body[0] {
        ASTNode::IfThenElse { condition, .. } => condition is Parameter,
        _ => false,
    }
}

/// The body begins with a branch on a parameter that names no variable.
pub open spec fn branches_on_fixed_parameter(body: Seq<ASTNode>) -> bool {
    branches_on_parameter(body) && match body[0] {
        ASTNode::IfThenElse { condition, .. } => expr_vars(condition@).len() == 0,
        _ => false,
    }
}

/// The errors by which building a graph can stop.
pub open spec fn construction_error(m: Seq<char>) -> bool {
    ||| exists|v: Seq<char>| m == #[trigger] defined_twice_message(v)
    ||| exists|v: Seq<char>| m == #[trigger] phi_missing_message(v)
    ||| m == condition_parameter_message()
    ||| m == declaration_missing_message()
    ||| m == lookup_too_deep_message()
    ||| m == too_many_blocks_message()
}

/// The errors by which the liveness analysis of a built graph can stop.
pub open spec fn liveness_error(m: Seq<char>) -> bool {
    ||| exists|v: Seq<char>| m == #[trigger] not_defined_message(v)
    ||| exists|v: Seq<char>| m == #[trigger] not_dominated_message(v)
}

fn too_deep() -> (m: String)
    ensures
        m@ == lookup_too_deep_message(),
        construction_error(m@),
{
    owned("Variable lookup nested too deeply")
}

fn too_many_blocks() -> (m: String)
    ensures
        m@ == too_many_blocks_message(),
        construction_error(m@),
{
    owned("Too many blocks")
}

fn phi_missing(v: &str) -> (m: String)
    ensures
        m@ == phi_missing_message(v@),
        construction_error(m@),
{
    let mut s = owned("Phi node '");
    push_text(&mut s, v);
    push_text(&mut s, "' missing");
    proof {
        assert(s@ =~= phi_missing_message(v@));
    }
    s
}

/// A SSA-based CFG builder
pub struct CfgConstructor {
    cfg: CFG,
    /// Save for each block the definition of the variables it contains (the new name)
    /// Old name → SSA name
    definitions: Vec<NameMap<String>>,
    /// SSA name of the phi → List of possible values it can have depending on the execution
    phis: NameMap<Vec<PhiPossibility>>,
    /// Current SSA values: ssa name -> original name
    to_non_ssa: NameMap<String>,
    /// Tracks unfinished φ-nodes per block: original name → SSA name of its φ-node
    incomplete_phis: Vec<NameMap<String>>,
    /// For each variable, the places where it is held and how
    uses: NameMap<ItemSet<UseTemp>>,
    /// We keep track of the blocks that lead to exceptions (i.e., errors)
    exception_blocks: ItemSet<usize>,
    /// Non-ssa names, to count the number of original variables
    non_ssa_names: NameMap<()>,
    sealed_blocks: Vec<bool>,
    next_ssa_num: usize,
    /// Whether the graph started without live sets: building it adds none.
    live_fresh: Ghost<bool>,
}

impl CfgConstructor {
    spec fn uses_ok(&self, k: Seq<char>) -> bool {
        &&& self.uses@[k].wf()
        &&& forall|u: UseTemp| #[trigger] self.uses@[k]@.contains(u) ==> temp_block(u) < self.cfg.blocks@.len()
    }

    spec fn phi_ok(&self, k: Seq<char>) -> bool {
        forall|q: int| 0 <= q < self.phis@[k]@.len() ==> #[trigger] self.phis@[k]@[q].block < self.cfg.blocks@.len()
    }

    /// The places that hold the SSA name `var`, empty when none does.
    spec fn held(&self, var: Seq<char>) -> Set<UseTemp> {
        if self.uses@.contains_key(var) {
            self.uses@[var]@
        } else {
            Set::empty()
        }
    }

    /// Block `block` memorizes a current SSA name for the variable `k`.
    spec fn knows(&self, block: usize, k: Seq<char>) -> bool {
        self.definitions@[block as int]@.contains_key(k)
    }

    /// From `before` to `after` no block has lost the memory of a variable, and no
    /// block was sealed or unsealed.
    spec fn defs_kept(before: CfgConstructor, after: CfgConstructor) -> bool {
        &&& after.definitions@.len() == before.definitions@.len()
        &&& forall|b: int, k: Seq<char>|
            0 <= b < before.definitions@.len() && #[trigger] before.definitions@[b]@.contains_key(k)
                ==> after.definitions@[b]@.contains_key(k)
        &&& after.sealed_blocks == before.sealed_blocks
    }

    /// The graph is well formed and in SSA form, and every table has one entry
    /// per block and mentions only blocks of the graph.
    pub closed spec fn inv(&self) -> bool {
        let n = self.cfg.blocks@.len();
        &&& self.cfg.wf()
        &&& self.cfg.ssa_ok()
        &&& self.cfg.entry == 0
        &&& self.definitions@.len() == n
        &&& self.incomplete_phis@.len() == n
        &&& self.sealed_blocks@.len() == n
        &&& forall|i: int| 0 <= i < n ==> (#[trigger] self.definitions@[i]).wf()
        &&& forall|i: int| 0 <= i < n ==> (#[trigger] self.incomplete_phis@[i]).wf()
        &&& self.phis.wf()
        &&& self.to_non_ssa.wf()
        &&& self.uses.wf()
        &&& self.non_ssa_names.wf()
        &&& self.exception_blocks.wf()
        &&& forall|x: usize| #[trigger] self.exception_blocks@.contains(x) ==> x < n
        &&& forall|k: Seq<char>| #[trigger] self.uses@.contains_key(k) ==> self.uses_ok(k)
        &&& forall|k: Seq<char>| #[trigger] self.phis@.contains_key(k) ==> self.phi_ok(k)
        &&& self.live_fresh@ ==> live_in_empty(self.cfg.blocks@)
    }

    /// The graph being built had no live sets to begin with.
    pub closed spec fn starts_without_live_sets(&self) -> bool {
        self.live_fresh@
    }

    /// The number of blocks of the graph being built.
    pub closed spec fn block_count(&self) -> nat {
        self.cfg.blocks@.len()
    }

    /// The blocks that end with an error.
    pub closed spec fn exits_by_error(&self) -> Set<usize> {
        self.exception_blocks@
    }

    /// The graph being built.
    pub closed spec fn graph(&self) -> CFG {
        self.cfg
    }

    /// The number of statements of the graph being built.
    pub closed spec fn stmt_count(&self) -> nat {
        statement_total(self.cfg.blocks@)
    }

    /// The graph that was built.
    pub fn into_cfg(self) -> (c: CFG)
        ensures
            c == self.graph(),
    {
        self.cfg
    }

    /// The invariant survives a change of the graph alone that keeps it well formed,
    /// in SSA form and with as many blocks.
    proof fn lemma_inv_graph_step(&self, before: CfgConstructor)
        requires
            before.inv(),
            self.cfg.wf(),
            self.cfg.ssa_ok(),
            self.cfg.entry == 0,
            self.cfg.blocks@.len() == before.cfg.blocks@.len(),
            self.definitions == before.definitions,
            self.phis == before.phis,
            self.to_non_ssa == before.to_non_ssa,
            self.incomplete_phis == before.incomplete_phis,
            self.uses == before.uses,
            self.exception_blocks == before.exception_blocks,
            self.non_ssa_names == before.non_ssa_names,
            self.sealed_blocks == before.sealed_blocks,
            self.live_fresh == before.live_fresh,
            forall|i: int| 0 <= i < self.cfg.blocks@.len() ==> (#[trigger] self.cfg.blocks@[i]).live_in@ == before.cfg.blocks@[i].live_in@,
        ensures
            self.inv(),
    {
        assert forall|k: Seq<char>| #[trigger] self.uses@.contains_key(k) implies self.uses_ok(k) by {
            assert(before.uses_ok(k));
        }
        assert forall|k: Seq<char>| #[trigger] self.phis@.contains_key(k) implies self.phi_ok(k) by {
            assert(before.phi_ok(k));
        }
    }

    pub fn new(cfg: CFG) -> (c: CfgConstructor)
        requires
            cfg.wf(),
            cfg.ssa_ok(),
            cfg.blocks@.len() == 1,
        ensures
            c.inv(),
            c.graph() == cfg,
            c.block_count() == 1,
            c.starts_without_live_sets() == live_in_empty(cfg.blocks@),
    {
        let mut definitions = Vec::new();
        definitions.push(NameMap::new());
        let mut incomplete_phis = Vec::new();
        incomplete_phis.push(NameMap::new());
        let mut sealed_blocks = Vec::new();
        sealed_blocks.push(true);
        let c = CfgConstructor {
            cfg,
            definitions,
            phis: NameMap::new(),
            to_non_ssa: NameMap::new(),
            incomplete_phis,
            uses: NameMap::new(),
            exception_blocks: ItemSet::new(),
            non_ssa_names: NameMap::new(),
            sealed_blocks,
            next_ssa_num: 0,
            live_fresh: Ghost(live_in_empty(cfg.blocks@)),
        };
        proof {
            assert(c.definitions@[0].wf());
            assert(c.incomplete_phis@[0].wf());
        }
        c
    }

    /// Create a new block for the cfg, but, at the same time, increase the size of the block
    /// variable definition
    /// Returns position of block
    fn create_block(&mut self) -> (r: Result<usize, String>)
        requires
            old(self).inv(),
        ensures
            final(self).live_fresh == old(self).live_fresh,
            final(self).exception_blocks == old(self).exception_blocks,
            links_kept(old(self).cfg.blocks@, final(self).cfg.blocks@),
            r.is_ok() ==> final(self).stmt_count() == old(self).stmt_count(),
            match r {
                Ok(id) => {
                    &&& final(self).inv()
                    &&& id == old(self).block_count()
                    &&& final(self).block_count() == old(self).block_count() + 1
                    &&& final(self).cfg.blocks@[id as int].predecessors@.len() == 0
                    &&& final(self).cfg.blocks@[id as int].successors is None
                },
                Err(m) => construction_error(m@),
            },
    {
        if self.cfg.blocks.len() == usize::MAX {
            return Err(too_many_blocks());
        }
        let ghost before = *self;
        self.definitions.push(NameMap::new());
        self.incomplete_phis.push(NameMap::new());
        self.sealed_blocks.push(false);
        let id = self.cfg.create_new_block();
        proof {
            let n = self.cfg.blocks@.len();
            assert forall|i: int| 0 <= i < n implies (#[trigger] self.definitions@[i]).wf() by {
                if i < n - 1 {
                    assert(before.definitions@[i] == self.definitions@[i]);
                }
            }
            assert forall|i: int| 0 <= i < n implies (#[trigger] self.incomplete_phis@[i]).wf() by {
                if i < n - 1 {
                    assert(before.incomplete_phis@[i] == self.incomplete_phis@[i]);
                }
            }
            assert forall|k: Seq<char>| #[trigger] self.uses@.contains_key(k) implies self.uses_ok(k) by {
                assert(before.uses_ok(k));
            }
            assert forall|k: Seq<char>| #[trigger] self.phis@.contains_key(k) implies self.phi_ok(k) by {
                assert(before.phi_ok(k));
            }
            if self.live_fresh@ {
                assert forall|b: int| 0 <= b < n implies (#[trigger] self.cfg.blocks@[b]).live_in@.len() == 0 by {
                    if b < n - 1 {
                        assert(self.cfg.blocks@[b] == before.cfg.blocks@[b]);
                    }
                }
            }
        }
        Ok(id)
    }

    /// Create a fresh SSA name
    /// Returns ssa name
    fn fresh(&mut self) -> (name: String)
        requires
            old(self).inv(),
        ensures
            final(self).live_fresh == old(self).live_fresh,
            final(self).exception_blocks == old(self).exception_blocks,
            links_kept(old(self).cfg.blocks@, final(self).cfg.blocks@),
            final(self).stmt_count() == old(self).stmt_count(),
            final(self).inv(),
            final(self).block_count() == old(self).block_count(),
            name@ == ssa_name(old(self).next_ssa_num as nat),
            *final(self) == (CfgConstructor { next_ssa_num: final(self).next_ssa_num, ..*old(self) }),
    {
        let mut s = String::new();
        push_char(&mut s, 'v');
        push_padded_decimal(&mut s, self.next_ssa_num, 3);
        self.next_ssa_num = self.next_ssa_num.wrapping_add(1);
        proof {
            assert(s@ =~= ssa_name(old(self).next_ssa_num as nat));
        }
        s
    }

    /// Records `name` among the original names.
    fn note_name(&mut self, name: &str)
        requires
            old(self).inv(),
        ensures
            final(self).live_fresh == old(self).live_fresh,
            final(self).exception_blocks == old(self).exception_blocks,
            links_kept(old(self).cfg.blocks@, final(self).cfg.blocks@),
            final(self).stmt_count() == old(self).stmt_count(),
            final(self).inv(),
            final(self).block_count() == old(self).block_count(),
            final(self).next_ssa_num == old(self).next_ssa_num,
            final(self).non_ssa_names@ == old(self).non_ssa_names@.insert(name@, ()),
            *final(self) == (CfgConstructor { non_ssa_names: final(self).non_ssa_names, ..*old(self) }),
    {
        if !self.non_ssa_names.contains(name) {
            self.non_ssa_names.insert(owned(name), ());
        } else {
            assert(self.non_ssa_names@ =~= self.non_ssa_names@.insert(name@, ()));
        }
    }

    /// Memorizes `ssa_name` as the current value of `name` in `block`.
    fn set_definition(&mut self, block: usize, name: &str, ssa_name: String)
        requires
            old(self).inv(),
            block < old(self).block_count(),
        ensures
            final(self).live_fresh == old(self).live_fresh,
            final(self).exception_blocks == old(self).exception_blocks,
            links_kept(old(self).cfg.blocks@, final(self).cfg.blocks@),
            final(self).stmt_count() == old(self).stmt_count(),
            final(self).inv(),
            final(self).block_count() == old(self).block_count(),
            final(self).definitions@.len() == old(self).definitions@.len(),
            final(self).definitions@[block as int]@ == old(self).definitions@[block as int]@.insert(name@, ssa_name),
            forall|i: int| 0 <= i < old(self).definitions@.len() && i != block ==> #[trigger] final(self).definitions@[i] == old(self).definitions@[i],
            *final(self) == (CfgConstructor { definitions: final(self).definitions, ..*old(self) }),
    {
        let ghost before = *self;
        let mut m = NameMap::new();
        core::mem::swap(&mut m, &mut self.definitions[block]);
        proof {
            assert(m == before.definitions@[block as int]);
        }
        m.insert(owned(name), ssa_name);
        core::mem::swap(&mut m, &mut self.definitions[block]);
        proof {
            assert forall|i: int| 0 <= i < self.cfg.blocks@.len() implies (#[trigger] self.definitions@[i]).wf() by {
                if i != block {
                    assert(self.definitions@[i] == before.definitions@[i]);
                }
            }
        }
    }

    /// Records that `u` holds the SSA name `var`.
    fn add_temp_use(&mut self, var: String, u: UseTemp)
        requires
            old(self).inv(),
            temp_block(u) < old(self).block_count(),
        ensures
            final(self).live_fresh == old(self).live_fresh,
            final(self).exception_blocks == old(self).exception_blocks,
            links_kept(old(self).cfg.blocks@, final(self).cfg.blocks@),
            final(self).stmt_count() == old(self).stmt_count(),
            final(self).inv(),
            final(self).block_count() == old(self).block_count(),
            final(self).uses@.dom() == old(self).uses@.dom().insert(var@),
            forall|k: Seq<char>| #[trigger] final(self).held(k) == (if k == var@ { old(self).held(k).insert(u) } else { old(self).held(k) }),
            *final(self) == (CfgConstructor { uses: final(self).uses, ..*old(self) }),
    {
        let ghost before = *self;
        let ghost kv = var@;
        let mut set = match self.uses.remove(var.as_str()) {
            Some(s) => s,
            None => ItemSet::new(),
        };
        proof {
            if before.uses@.contains_key(kv) {
                assert(before.uses_ok(kv));
            }
        }
        set.insert(u);
        self.uses.insert(var, set);
        proof {
            assert forall|k: Seq<char>| #[trigger] self.uses@.contains_key(k) implies self.uses_ok(k) by {
                if k != kv {
                    assert(before.uses_ok(k));
                } else {
                    assert forall|x: UseTemp| #[trigger] self.uses@[k]@.contains(x) implies temp_block(x) < self.cfg.blocks@.len() by {
                        if x != u {
                            assert(before.uses@[k]@.contains(x));
                        }
                    }
                }
            }
        }
    }

    /// Records that the instruction at `line` of `block` reads `var`.
    fn track_variable_use(&mut self, var: String, block: usize, line: LineInstruction)
        requires
            old(self).inv(),
            block < old(self).block_count(),
        ensures
            final(self).live_fresh == old(self).live_fresh,
            final(self).exception_blocks == old(self).exception_blocks,
            links_kept(old(self).cfg.blocks@, final(self).cfg.blocks@),
            final(self).stmt_count() == old(self).stmt_count(),
            final(self).inv(),
            final(self).block_count() == old(self).block_count(),
            forall|k: Seq<char>| #[trigger] final(self).held(k) == (if k == var@ {
                old(self).held(k).insert(UseTemp::InBlock(Use::InInstruction(block, line)))
            } else {
                old(self).held(k)
            }),
            final(self).cfg.blocks == old(self).cfg.blocks,
            final(self).cfg.definitions == old(self).cfg.definitions,
            final(self).cfg.uses_view() == old(self).cfg.uses_view().insert(var@,
                old(self).cfg.uses_of(var@).insert(Use::InInstruction(block, line))),
            *final(self) == (CfgConstructor { cfg: final(self).cfg, uses: final(self).uses, ..*old(self) }),
    {
        let held_name = var.clone();
        proof {
            assert(held_name@ == var@);
        }
        self.add_temp_use(held_name, UseTemp::InBlock(Use::InInstruction(block, line)));
        let ghost before = *self;
        self.cfg.track_use_instruction(block, var, line);
        proof {
            self.lemma_inv_graph_step(before);
            assert forall|k: Seq<char>| #[trigger] self.held(k) == (if k == var@ {
                old(self).held(k).insert(UseTemp::InBlock(Use::InInstruction(block, line)))
            } else {
                old(self).held(k)
            }) by {
                assert(self.held(k) == before.held(k));
            }
        }
    }

    /// Links `from` to `to`, unless `from` already has a successor.
    fn link(&mut self, from: usize, to: usize)
        requires
            old(self).inv(),
            from < old(self).block_count(),
            to < old(self).block_count(),
        ensures
            final(self).live_fresh == old(self).live_fresh,
            final(self).stmt_count() == old(self).stmt_count(),
            final(self).inv(),
            final(self).block_count() == old(self).block_count(),
            old(self).cfg.blocks@[from as int].successors.is_some() ==> final(self).cfg.blocks@ == old(self).cfg.blocks@,
            old(self).cfg.blocks@[from as int].successors.is_none() ==> {
                &&& opt_succ(final(self).cfg.blocks@[from as int].successors) == Some(SpecSuccessor::Unconditional { to })
                &&& final(self).cfg.blocks@[to as int].predecessors@ == old(self).cfg.blocks@[to as int].predecessors@.push(from)
                &&& from != to ==> final(self).cfg.blocks@[to as int].successors == old(self).cfg.blocks@[to as int].successors
                &&& forall|i: int|
                    0 <= i < old(self).cfg.blocks@.len() && i != from && i != to ==> #[trigger] final(self).cfg.blocks@[i]
                        == old(self).cfg.blocks@[i]
            },
            *final(self) == (CfgConstructor { cfg: final(self).cfg, ..*old(self) }),
    {
        let ghost before = *self;
        self.cfg.add_uncond_link(from, to);
        proof {
            self.lemma_inv_graph_step(before);
        }
    }

    /// Write a new SSA binding for `non_ssa_name` in `block`
    /// Returns ssa name
    fn write_variable(&mut self, non_ssa_name: &str, block: usize) -> (r: String)
        requires
            old(self).inv(),
            block < old(self).block_count(),
        ensures
            final(self).live_fresh == old(self).live_fresh,
            final(self).exception_blocks == old(self).exception_blocks,
            links_kept(old(self).cfg.blocks@, final(self).cfg.blocks@),
            final(self).stmt_count() == old(self).stmt_count(),
            final(self).inv(),
            final(self).block_count() == old(self).block_count(),
            r@ == ssa_name(old(self).next_ssa_num as nat),
            Self::defs_kept(*old(self), *final(self)),
            final(self).definitions@[block as int]@.contains_key(non_ssa_name@),
            final(self).definitions@[block as int]@[non_ssa_name@] == r,
    {
        self.note_name(non_ssa_name);
        let ssa_name = self.fresh();
        self.to_non_ssa.insert(ssa_name.clone(), owned(non_ssa_name));
        self.set_definition(block, non_ssa_name, ssa_name.clone());
        ssa_name
    }

    /// Write a new empty phi function for `non_ssa_name` in `block`
    fn write_phi_function(&mut self, non_ssa_name: &str, block: usize) -> (r: String)
        requires
            old(self).inv(),
            block < old(self).block_count(),
        ensures
            final(self).live_fresh == old(self).live_fresh,
            final(self).exception_blocks == old(self).exception_blocks,
            links_kept(old(self).cfg.blocks@, final(self).cfg.blocks@),
            final(self).stmt_count() == old(self).stmt_count(),
            final(self).inv(),
            final(self).block_count() == old(self).block_count(),
            r@ == ssa_name(old(self).next_ssa_num as nat),
            Self::defs_kept(*old(self), *final(self)),
            final(self).definitions@[block as int]@.contains_key(non_ssa_name@),
            final(self).definitions@[block as int]@[non_ssa_name@] == r,
    {
        self.note_name(non_ssa_name);
        let ssa_name = self.fresh();
        let ghost before = *self;
        self.phis.insert(ssa_name.clone(), Vec::new());
        proof {
            assert forall|k: Seq<char>| #[trigger] self.phis@.contains_key(k) implies self.phi_ok(k) by {
                if k != ssa_name@ {
                    assert(before.phi_ok(k));
                }
            }
        }
        self.to_non_ssa.insert(ssa_name.clone(), owned(non_ssa_name));
        self.set_definition(block, non_ssa_name, ssa_name.clone());
        ssa_name
    }

    /// Records the φ-node `ssa_phi_name` of `non_ssa_name` as unfinished in `block`.
    fn add_incomplete_phi(&mut self, block: usize, non_ssa_name: &str, ssa_phi_name: String)
        requires
            old(self).inv(),
            block < old(self).block_count(),
        ensures
            final(self).live_fresh == old(self).live_fresh,
            final(self).exception_blocks == old(self).exception_blocks,
            links_kept(old(self).cfg.blocks@, final(self).cfg.blocks@),
            final(self).stmt_count() == old(self).stmt_count(),
            final(self).inv(),
            final(self).block_count() == old(self).block_count(),
            final(self).incomplete_phis@.len() == old(self).incomplete_phis@.len(),
            final(self).incomplete_phis@[block as int]@ == old(self).incomplete_phis@[block as int]@.insert(non_ssa_name@, ssa_phi_name),
            forall|i: int| 0 <= i < old(self).incomplete_phis@.len() && i != block ==> #[trigger] final(self).incomplete_phis@[i] == old(self).incomplete_phis@[i],
            *final(self) == (CfgConstructor { incomplete_phis: final(self).incomplete_phis, ..*old(self) }),
    {
        let ghost before = *self;
        let mut m = NameMap::new();
        core::mem::swap(&mut m, &mut self.incomplete_phis[block]);
        proof {
            assert(m == before.incomplete_phis@[block as int]);
        }
        m.insert(owned(non_ssa_name), ssa_phi_name);
        core::mem::swap(&mut m, &mut self.incomplete_phis[block]);
        proof {
            assert forall|i: int| 0 <= i < self.cfg.blocks@.len() implies (#[trigger] self.incomplete_phis@[i]).wf() by {
                if i != block {
                    assert(self.incomplete_phis@[i] == before.incomplete_phis@[i]);
                }
            }
        }
    }

    /// Read a variable, inserting φ if needed
    /// Returns ssa name
    fn read_variable(&mut self, non_ssa_name: &str, block: usize, fuel: usize) -> (r: Result<String, String>)
        requires
            old(self).inv(),
            block < old(self).block_count(),
        ensures
            final(self).live_fresh == old(self).live_fresh,
            final(self).exception_blocks == old(self).exception_blocks,
            links_kept(old(self).cfg.blocks@, final(self).cfg.blocks@),
            r.is_ok() ==> final(self).stmt_count() == old(self).stmt_count(),
            r.is_ok() ==> final(self).inv() && final(self).block_count() == old(self).block_count(),
            r matches Err(m) ==> construction_error(m@),
            Self::defs_kept(*old(self), *final(self)),
            fuel == 0 ==> (r matches Err(m) && m@ == lookup_too_deep_message()),
            fuel > 0 && old(self).definitions@[block as int]@.contains_key(non_ssa_name@) ==> {
                &&& r == Ok::<String, String>(old(self).definitions@[block as int]@[non_ssa_name@])
                &&& *final(self) == *old(self)
            },
            r matches Ok(v) ==> {
                &&& final(self).definitions@[block as int]@.contains_key(non_ssa_name@)
                &&& final(self).definitions@[block as int]@[non_ssa_name@] == v
            },
        decreases fuel,
    {
        if fuel == 0 {
            return Err(too_deep());
        }
        proof {
            assert(self.definitions@[block as int].wf());
        }
        match self.definitions[block].get(non_ssa_name) {
            Some(ssa_name) => {
                return Ok(ssa_name.clone());
            },
            None => {},
        }
        self.read_recursive(non_ssa_name, block, fuel - 1)
    }

    /// Recursively tries to read a variable, inserting φ if needed
    /// Returns ssa name
    fn read_recursive(&mut self, non_ssa_name: &str, block: usize, fuel: usize) -> (r: Result<String, String>)
        requires
            old(self).inv(),
            block < old(self).block_count(),
        ensures
            final(self).live_fresh == old(self).live_fresh,
            final(self).exception_blocks == old(self).exception_blocks,
            links_kept(old(self).cfg.blocks@, final(self).cfg.blocks@),
            r.is_ok() ==> final(self).stmt_count() == old(self).stmt_count(),
            r.is_ok() ==> final(self).inv() && final(self).block_count() == old(self).block_count(),
            r matches Err(m) ==> construction_error(m@),
            Self::defs_kept(*old(self), *final(self)),
            fuel == 0 ==> (r matches Err(m) && m@ == lookup_too_deep_message()),
            fuel > 0 && !old(self).sealed_blocks@[block as int] ==> {
                &&& (r matches Ok(v) && v@ == ssa_name(old(self).next_ssa_num as nat))
                &&& final(self).incomplete_phis@[block as int]@.contains_key(non_ssa_name@)
                &&& final(self).incomplete_phis@[block as int]@[non_ssa_name@]@ == ssa_name(old(self).next_ssa_num as nat)
            },
            r matches Ok(v) ==> {
                &&& final(self).definitions@[block as int]@.contains_key(non_ssa_name@)
                &&& final(self).definitions@[block as int]@[non_ssa_name@] == v
            },
        decreases fuel,
    {
        if fuel == 0 {
            return Err(too_deep());
        }
        if !self.sealed_blocks[block] {
            // Incomplete block: create φ placeholder
            let ssa_phi_name = self.write_phi_function(non_ssa_name, block);
            let ghost s1 = self.cfg.blocks@;
            self.add_incomplete_phi(block, non_ssa_name, ssa_phi_name.clone());
            proof {
                lemma_links_kept_trans(old(self).cfg.blocks@, s1, self.cfg.blocks@);
            }
            return Ok(ssa_phi_name);
        }
        let predecessors = copy_items(self.cfg.predecessors(block));
        proof {
            assert(self.cfg.block_ok(block as int));
        }
        // Single predecessor -> no φ needed
        if predecessors.len() == 1 {
            proof {
                assert(predecessors@[0] < self.cfg.blocks@.len());
            }
            let v = match self.read_variable(non_ssa_name, predecessors[0], fuel - 1) {
                Ok(v) => v,
                Err(e) => {
                    return Err(e);
                },
            };
            let ghost s1 = self.cfg.blocks@;
            // Avoid the recursive lookup in future cases
            self.set_definition(block, non_ssa_name, v.clone());
            let ghost s2 = self.cfg.blocks@;
            self.add_temp_use(v.clone(), UseTemp::InMemoization(block));
            proof {
                lemma_links_kept_trans(old(self).cfg.blocks@, s1, s2);
                lemma_links_kept_trans(old(self).cfg.blocks@, s2, self.cfg.blocks@);
            }
            return Ok(v);
        }
        // Multiple predecessors -> φ
        // Break potential cycles with operandless phi
        let ssa_phi_name = self.write_phi_function(non_ssa_name, block);
        let ghost s1 = self.cfg.blocks@;
        match self.add_phi_operands(non_ssa_name, ssa_phi_name.as_str(), block, fuel - 1) {
            Ok(()) => {},
            Err(e) => {
                proof {
                    lemma_links_kept_trans(old(self).cfg.blocks@, s1, self.cfg.blocks@);
                }
                return Err(e);
            },
        }
        let ghost s2 = self.cfg.blocks@;
        proof {
            lemma_links_kept_trans(old(self).cfg.blocks@, s1, s2);
        }
        // In case phi is trivial, we read again
        let r = self.read_variable(non_ssa_name, block, fuel - 1);
        proof {
            lemma_links_kept_trans(old(self).cfg.blocks@, s2, self.cfg.blocks@);
        }
        r
    }

    /// Add φ operands from all predecessors for `non_ssa_name` in `block`
    fn add_phi_operands(&mut self, non_ssa_name: &str, ssa_phi_name: &str, block: usize, fuel: usize) -> (r: Result<(), String>)
        requires
            old(self).inv(),
            block < old(self).block_count(),
        ensures
            final(self).live_fresh == old(self).live_fresh,
            final(self).exception_blocks == old(self).exception_blocks,
            links_kept(old(self).cfg.blocks@, final(self).cfg.blocks@),
            r.is_ok() ==> final(self).stmt_count() == old(self).stmt_count(),
            r.is_ok() ==> final(self).inv() && final(self).block_count() == old(self).block_count(),
            r matches Err(m) ==> construction_error(m@),
            Self::defs_kept(*old(self), *final(self)),
            fuel == 0 ==> (r matches Err(m) && m@ == lookup_too_deep_message()),
            fuel > 0 && old(self).cfg.blocks@[block as int].predecessors@.len() == 0 && !old(self).phis@.contains_key(ssa_phi_name@)
                ==> (r matches Err(m) && m@ == phi_missing_message(ssa_phi_name@)),
            r is Ok ==> forall|j: int| 0 <= j < old(self).cfg.blocks@[block as int].predecessors@.len()
                ==> final(self).knows(#[trigger] old(self).cfg.blocks@[block as int].predecessors@[j], non_ssa_name@),
        decreases fuel,
    {
        if fuel == 0 {
            return Err(too_deep());
        }
        let ghost n = self.cfg.blocks@.len();
        let predecessors = copy_items(self.cfg.predecessors(block));
        proof {
            assert(self.cfg.block_ok(block as int));
        }
        let mut operands: Vec<PhiPossibility> = Vec::new();
        let mut i: usize = 0;
        while i < predecessors.len()
            invariant
                self.live_fresh == old(self).live_fresh,
                self.exception_blocks == old(self).exception_blocks,
                links_kept(old(self).cfg.blocks@, self.cfg.blocks@),
                self.stmt_count() == old(self).stmt_count(),
                self.inv(),
                Self::defs_kept(*old(self), *self),
                self.cfg.blocks@.len() == n,
                block < n,
                fuel > 0,
                i <= predecessors@.len(),
                forall|j: int| 0 <= j < predecessors@.len() ==> #[trigger] predecessors@[j] < n,
                forall|q: int| 0 <= q < operands@.len() ==> #[trigger] operands@[q].block < n,
                predecessors@ == old(self).cfg.blocks@[block as int].predecessors@,
                forall|jj: int| 0 <= jj < i ==> self.knows(#[trigger] predecessors@[jj], non_ssa_name@),
                predecessors@.len() == 0 ==> *self == *old(self),
            decreases predecessors@.len() - i,
        {
            let pred = predecessors[i];
            let ghost pre = self.cfg.blocks@;
            let operand = match self.read_variable(non_ssa_name, pred, fuel - 1) {
                Ok(o) => o,
                Err(e) => {
                    proof {
                        lemma_links_kept_trans(old(self).cfg.blocks@, pre, self.cfg.blocks@);
                    }
                    return Err(e);
                },
            };
            proof {
                lemma_links_kept_trans(old(self).cfg.blocks@, pre, self.cfg.blocks@);
            }
            operands.push(PhiPossibility { variable: operand, block: pred });
            proof {
                assert(self.knows(pred, non_ssa_name@));
            }
            i = i + 1;
        }
        let ghost before = *self;
        let mut phi_operation = match self.phis.remove(ssa_phi_name) {
            Some(op) => op,
            None => {
                return Err(phi_missing(ssa_phi_name));
            },
        };
        let ghost earlier = phi_operation@;
        let ghost added = operands@;
        proof {
            assert(before.phi_ok(ssa_phi_name@));
            assert(earlier == before.phis@[ssa_phi_name@]@);
        }
        phi_operation.append(&mut operands);
        let ghost all = phi_operation@;
        proof {
            assert forall|q: int| 0 <= q < all.len() implies #[trigger] all[q].block < n by {
                if q < earlier.len() {
                    assert(all[q] == earlier[q]);
                } else {
                    assert(all[q] == added[q - earlier.len()]);
                }
            }
        }
        let possibilities = duplicate_possibilities(&phi_operation);
        proof {
            assert forall|q: int| 0 <= q < possibilities@.len() implies #[trigger] possibilities@[q].block < n by {
                assert(poss_view(possibilities@).len() == possibilities@.len());
                assert(poss_view(possibilities@)[q] == possibilities@[q]@);
                assert(poss_view(all)[q] == all[q]@);
            }
        }
        self.phis.insert(owned(ssa_phi_name), phi_operation);
        proof {
            assert forall|k: Seq<char>| #[trigger] self.phis@.contains_key(k) implies self.phi_ok(k) by {
                if k != ssa_phi_name@ {
                    assert(before.phi_ok(k));
                }
            }
        }
        let ghost pre_trivial = self.cfg.blocks@;
        proof {
            assert(links_kept(old(self).cfg.blocks@, pre_trivial));
        }
        let trivial = match self.try_remove_trivial(ssa_phi_name, non_ssa_name, block, fuel - 1) {
            Ok(t) => t,
            Err(e) => {
                proof {
                    lemma_links_kept_trans(old(self).cfg.blocks@, pre_trivial, self.cfg.blocks@);
                }
                return Err(e);
            },
        };
        proof {
            lemma_links_kept_trans(old(self).cfg.blocks@, pre_trivial, self.cfg.blocks@);
        }
        if !trivial {
            let phi = PhiFunction { output: owned(ssa_phi_name), possibilities: duplicate_possibilities(&possibilities) };
            proof {
                assert forall|q: int| 0 <= q < phi.possibilities@.len() implies #[trigger] phi.possibilities@[q].block < n by {
                    assert(poss_view(phi.possibilities@).len() == phi.possibilities@.len());
                    assert(poss_view(possibilities@).len() == possibilities@.len());
                    assert(poss_view(phi.possibilities@)[q] == phi.possibilities@[q]@);
                    assert(poss_view(possibilities@)[q] == possibilities@[q]@);
                }
            }
            let ghost before_add = *self;
            let line = match self.cfg.add_phi_function(block, phi) {
                Ok(line) => line,
                Err(e) => {
                    proof {
                        assert(e@ == defined_twice_message(ssa_phi_name@));
                    }
                    return Err(e);
                },
            };
            proof {
                self.lemma_inv_graph_step(before_add);
                assert(links_kept(before_add.cfg.blocks@, self.cfg.blocks@));
                lemma_links_kept_trans(old(self).cfg.blocks@, before_add.cfg.blocks@, self.cfg.blocks@);
            }
            let mut j: usize = 0;
            while j < possibilities.len()
                invariant
                    self.live_fresh == old(self).live_fresh,
                    self.exception_blocks == old(self).exception_blocks,
                    links_kept(old(self).cfg.blocks@, self.cfg.blocks@),
                    self.stmt_count() == old(self).stmt_count(),
                    self.inv(),
                    Self::defs_kept(*old(self), *self),
                    self.cfg.blocks@.len() == n,
                    block < n,
                    j <= possibilities@.len(),
                    predecessors@ == old(self).cfg.blocks@[block as int].predecessors@,
                    forall|jj: int| 0 <= jj < predecessors@.len() ==> self.knows(#[trigger] predecessors@[jj], non_ssa_name@),
                decreases possibilities@.len() - j,
            {
                self.track_variable_use(possibilities[j].variable.clone(), block, line);
                j = j + 1;
            }
        }
        Ok(())
    }

    /// Simplify trivial φ-nodes with identical operands: a φ-node whose operands
    /// other than itself are all one name is replaced by that name wherever it is held.
    /// Returns whether the φ-node is trivial or unknown (not to be placed in the graph).
    fn try_remove_trivial(&mut self, ssa_phi_name: &str, non_ssa_name: &str, block: usize, fuel: usize) -> (r: Result<bool, String>)
        requires
            old(self).inv(),
            block < old(self).block_count(),
        ensures
            final(self).live_fresh == old(self).live_fresh,
            final(self).exception_blocks == old(self).exception_blocks,
            links_kept(old(self).cfg.blocks@, final(self).cfg.blocks@),
            r.is_ok() ==> final(self).stmt_count() == old(self).stmt_count(),
            r.is_ok() ==> final(self).inv() && final(self).block_count() == old(self).block_count(),
            r matches Err(m) ==> construction_error(m@),
            Self::defs_kept(*old(self), *final(self)),
            fuel == 0 ==> (r matches Err(m) && m@ == lookup_too_deep_message()),
            fuel > 0 && !old(self).phis@.contains_key(ssa_phi_name@) ==> r == Ok::<bool, String>(false) && *final(self) == *old(self),
            fuel > 0 && old(self).phis@.contains_key(ssa_phi_name@) && merges_two(poss_view(old(self).phis@[ssa_phi_name@]@), ssa_phi_name@)
                ==> r == Ok::<bool, String>(false) && *final(self) == *old(self),
            fuel > 0 && old(self).phis@.contains_key(ssa_phi_name@) && !has_other(poss_view(old(self).phis@[ssa_phi_name@]@), ssa_phi_name@)
                ==> r == Ok::<bool, String>(true) && *final(self) == *old(self),
            r == Ok::<bool, String>(true) && old(self).phis@.contains_key(ssa_phi_name@) && has_other(poss_view(old(self).phis@[ssa_phi_name@]@), ssa_phi_name@) ==> {
                &&& !final(self).phis@.contains_key(ssa_phi_name@)
                &&& final(self).definitions@[block as int]@.contains_key(non_ssa_name@)
                &&& final(self).definitions@[block as int]@[non_ssa_name@]@ == the_other(poss_view(old(self).phis@[ssa_phi_name@]@), ssa_phi_name@)
            },
        decreases fuel,
    {
        if fuel == 0 {
            return Err(too_deep());
        }
        let ghost n = self.cfg.blocks@.len();
        proof {
            assert(self.phis.wf());
        }
        let possibilities = match self.phis.get(ssa_phi_name) {
            Some(v) => duplicate_possibilities(v),
            None => {
                return Ok(false);
            },
        };
        let ghost pv = poss_view(possibilities@);
        let ghost phi = ssa_phi_name@;
        let mut repeated_operand: Option<String> = None;
        let mut i: usize = 0;
        while i < possibilities.len()
            invariant
                self.live_fresh == old(self).live_fresh,
                self.exception_blocks == old(self).exception_blocks,
                links_kept(old(self).cfg.blocks@, self.cfg.blocks@),
                self.stmt_count() == old(self).stmt_count(),
                self.inv(),
                Self::defs_kept(*old(self), *self),
                self.cfg.blocks@.len() == n,
                i <= possibilities@.len(),
                fuel > 0,
                *self == *old(self),
                pv == poss_view(possibilities@),
                pv == poss_view(old(self).phis@[phi]@),
                old(self).phis@.contains_key(phi),
                phi == ssa_phi_name@,
                repeated_operand is None ==> forall|q: int| 0 <= q < i ==> !#[trigger] other_operand(pv, phi, q),
                repeated_operand matches Some(ro) ==> {
                    &&& forall|q: int| 0 <= q < i && #[trigger] other_operand(pv, phi, q) ==> pv[q].0 == ro@
                    &&& exists|q: int| 0 <= q < i && #[trigger] other_operand(pv, phi, q)
                },
            decreases possibilities@.len() - i,
        {
            let var = &possibilities[i].variable;
            proof {
                assert(pv[i as int].0 == var@);
            }
            //Self references do not count
            if !same_text(var, ssa_phi_name) {
                match &repeated_operand {
                    Some(r) => {
                        //The phi merges at least two different values: not trivial
                        if !same_text(r, var.as_str()) {
                            proof {
                                let q1 = choose|q: int| 0 <= q < i && #[trigger] other_operand(pv, phi, q);
                                assert(other_operand(pv, phi, i as int));
                                assert(merges_two(pv, phi));
                            }
                            return Ok(false);
                        }
                    },
                    None => {},
                }
                repeated_operand = Some(var.clone());
                proof {
                    assert(other_operand(pv, phi, i as int));
                }
            }
            i = i + 1;
        }
        proof {
            match &repeated_operand {
                None => {
                    assert(!has_other(pv, phi));
                },
                Some(ro) => {
                    assert(!merges_two(pv, phi));
                    assert(has_other(pv, phi));
                    let q = choose|q: int| #[trigger] other_operand(pv, phi, q);
                    assert(the_other(pv, phi) == ro@);
                },
            }
        }
        if let Some(repeated_op_name) = repeated_operand {
            let ghost before = *self;
            if let Some(users_set) = self.uses.remove(ssa_phi_name) {
                proof {
                    assert(before.uses_ok(ssa_phi_name@));
                    assert forall|k: Seq<char>| #[trigger] self.uses@.contains_key(k) implies self.uses_ok(k) by {
                        assert(before.uses_ok(k));
                    }
                }
                let users = copy_items(&users_set.items);
                proof {
                    assert forall|q: int| 0 <= q < users@.len() implies temp_block(#[trigger] users@[q]) < n by {
                        assert(users_set@.contains(users@[q]));
                    }
                }
                let mut j: usize = 0;
                while j < users.len()
                    invariant
                        self.live_fresh == old(self).live_fresh,
                        self.exception_blocks == old(self).exception_blocks,
                        links_kept(old(self).cfg.blocks@, self.cfg.blocks@),
                        self.stmt_count() == old(self).stmt_count(),
                        self.inv(),
                        Self::defs_kept(*old(self), *self),
                        self.cfg.blocks@.len() == n,
                        block < n,
                        fuel > 0,
                        j <= users@.len(),
                        phi == ssa_phi_name@,
                        old(self).phis@.contains_key(phi),
                        pv == poss_view(old(self).phis@[phi]@),
                        !merges_two(pv, phi),
                        has_other(pv, phi),
                        the_other(pv, phi) == repeated_op_name@,
                        forall|q: int| 0 <= q < users@.len() ==> temp_block(#[trigger] users@[q]) < n,
                    decreases users@.len() - j,
                {
                    let ghost pre_user = self.cfg.blocks@;
                    match users[j] {
                        UseTemp::InMemoization(block_u) => {
                            proof {
                                assert(temp_block(users@[j as int]) == block_u);
                            }
                            self.set_definition(block_u, non_ssa_name, repeated_op_name.clone());
                        },
                        UseTemp::InBlock(Use::InCondition(block_u)) => {
                            proof {
                                assert(temp_block(users@[j as int]) == block_u);
                            }
                            let ghost before_change = *self;
                            self.cfg.change_condition_use(block_u, ssa_phi_name, repeated_op_name.as_str());
                            proof {
                                self.lemma_inv_graph_step(before_change);
                                assert(succ_targets(self.cfg.blocks@[block_u as int].successors) == succ_targets(
                                    before_change.cfg.blocks@[block_u as int].successors,
                                ));
                                assert(links_kept(pre_user, self.cfg.blocks@));
                            }
                        },
                        UseTemp::InBlock(Use::InInstruction(block_u, line_instruction)) => {
                            proof {
                                assert(temp_block(users@[j as int]) == block_u);
                            }
                            let ghost before_change = *self;
                            let declared_var = self.cfg.change_instruction_operands(
                                block_u,
                                &line_instruction,
                                ssa_phi_name,
                                repeated_op_name.as_str(),
                            );
                            proof {
                                self.lemma_inv_graph_step(before_change);
                            }
                            if let Some(user_ssa_name) = declared_var {
                                let user_non_ssa_name = match self.to_non_ssa.get(user_ssa_name.as_str()) {
                                    Some(v) => v.clone(),
                                    None => {
                                        return Err(owned("Declaration not found"));
                                    },
                                };
                                let ghost pre_rec = self.cfg.blocks@;
                                proof {
                                    assert(links_kept(pre_user, pre_rec));
                                }
                                match self.try_remove_trivial(user_ssa_name.as_str(), user_non_ssa_name.as_str(), block_u, fuel - 1) {
                                    Ok(_) => {},
                                    Err(e) => {
                                        proof {
                                            lemma_links_kept_trans(pre_user, pre_rec, self.cfg.blocks@);
                                            lemma_links_kept_trans(old(self).cfg.blocks@, pre_user, self.cfg.blocks@);
                                        }
                                        return Err(e);
                                    },
                                }
                                proof {
                                    lemma_links_kept_trans(pre_user, pre_rec, self.cfg.blocks@);
                                }
                            }
                        },
                    }
                    proof {
                        assert(links_kept(pre_user, self.cfg.blocks@));
                        lemma_links_kept_trans(old(self).cfg.blocks@, pre_user, self.cfg.blocks@);
                    }
                    j = j + 1;
                }
            }
            self.set_definition(block, non_ssa_name, repeated_op_name.clone());
            self.add_temp_use(repeated_op_name.clone(), UseTemp::InMemoization(block));
            let ghost before_removal = *self;
            self.phis.remove(ssa_phi_name);
            self.to_non_ssa.remove(ssa_phi_name);
            proof {
                assert forall|k: Seq<char>| #[trigger] self.phis@.contains_key(k) implies self.phi_ok(k) by {
                    assert(before_removal.phi_ok(k));
                }
            }
        }
        Ok(true)
    }

    /// Seal a block: finish its φ-nodes
    fn seal_block(&mut self, block: usize) -> (r: Result<(), String>)
        requires
            old(self).inv(),
            block < old(self).block_count(),
        ensures
            final(self).live_fresh == old(self).live_fresh,
            final(self).exception_blocks == old(self).exception_blocks,
            links_kept(old(self).cfg.blocks@, final(self).cfg.blocks@),
            r.is_ok() ==> final(self).stmt_count() == old(self).stmt_count(),
            r.is_ok() ==> final(self).inv() && final(self).block_count() == old(self).block_count(),
            r matches Err(m) ==> construction_error(m@),
            r.is_ok() ==> final(self).sealed_blocks@ == old(self).sealed_blocks@.update(block as int, true),
            old(self).incomplete_phis@[block as int]@ == Map::<Seq<char>, String>::empty() ==> r.is_ok(),
    {
        proof {
            let m = old(self).incomplete_phis@[block as int];
            assert(m.wf());
            if m.entries@.len() > 0 {
                lemma_seq_map_entry(m.entries@, 0);
                assert(m@.contains_key(m.entries@[0].0@));
            }
        }
        let ghost n = self.cfg.blocks@.len();
        let ghost before = *self;
        let mut pending = NameMap::new();
        core::mem::swap(&mut pending, &mut self.incomplete_phis[block]);
        proof {
            assert(pending == before.incomplete_phis@[block as int]);
            assert forall|i: int| 0 <= i < self.cfg.blocks@.len() implies (#[trigger] self.incomplete_phis@[i]).wf() by {
                if i != block {
                    assert(self.incomplete_phis@[i] == before.incomplete_phis@[i]);
                }
            }
        }
        let mut i: usize = 0;
        while i < pending.entries.len()
            invariant
                self.live_fresh == old(self).live_fresh,
                self.exception_blocks == old(self).exception_blocks,
                links_kept(old(self).cfg.blocks@, self.cfg.blocks@),
                self.stmt_count() == old(self).stmt_count(),
                self.inv(),
                Self::defs_kept(*old(self), *self),
                self.cfg.blocks@.len() == n,
                block < n,
                i <= pending.entries@.len(),
                old(self).incomplete_phis@[block as int]@ == Map::<Seq<char>, String>::empty() ==> pending.entries@.len() == 0,
            decreases pending.entries@.len() - i,
        {
            let non_ssa_name = pending.entries[i].0.clone();
            let ssa_phi_name = pending.entries[i].1.clone();
            match self.add_phi_operands(non_ssa_name.as_str(), ssa_phi_name.as_str(), block, LOOKUP_FUEL) {
                Ok(()) => {},
                Err(e) => {
                    return Err(e);
                },
            }
            i = i + 1;
        }
        self.sealed_blocks.set(block, true);
        proof {
            assert(self.sealed_blocks@ =~= old(self).sealed_blocks@.update(block as int, true));
        }
        Ok(())
    }

    fn read_atomic(&mut self, a: &Atomic, block: usize) -> (r: Result<Atomic, String>)
        requires
            old(self).inv(),
            block < old(self).block_count(),
        ensures
            final(self).live_fresh == old(self).live_fresh,
            final(self).exception_blocks == old(self).exception_blocks,
            links_kept(old(self).cfg.blocks@, final(self).cfg.blocks@),
            r.is_ok() ==> final(self).stmt_count() == old(self).stmt_count(),
            r.is_ok() ==> final(self).inv() && final(self).block_count() == old(self).block_count(),
            r matches Err(m) ==> construction_error(m@),
            Self::defs_kept(*old(self), *final(self)),
            r matches Ok(x) ==> atomic_read_shape(a@, x@),
            !(a is Variable) ==> (r matches Ok(x) && x@ == a@) && *final(self) == *old(self),
            forall|k: Seq<char>| #[trigger] atomic_vars(a@).contains(k) ==> {
                &&& old(self).definitions@[block as int]@.contains_key(k) ==> {
                    &&& r == Ok::<Atomic, String>(Atomic::Variable(old(self).definitions@[block as int]@[k]))
                    &&& *final(self) == *old(self)
                }
                &&& r is Ok ==> {
                    &&& final(self).definitions@[block as int]@.contains_key(k)
                    &&& r == Ok::<Atomic, String>(Atomic::Variable(final(self).definitions@[block as int]@[k]))
                }
            },
    {
        proof {
            if a is Variable {
                assert(atomic_vars(a@)[0] == a@->Variable_0);
            }
        }
        match a {
            Atomic::Variable(var) => match self.read_variable(var.as_str(), block, LOOKUP_FUEL) {
                Ok(v) => Ok(Atomic::Variable(v)),
                Err(e) => Err(e),
            },
            _ => Ok(a.duplicate()),
        }
    }

    /// The operand `op` with each variable replaced by its current SSA name in `block`.
    fn read_expression(&mut self, op: &Expression, block: usize) -> (r: Result<Expression, String>)
        requires
            old(self).inv(),
            block < old(self).block_count(),
        ensures
            final(self).live_fresh == old(self).live_fresh,
            final(self).exception_blocks == old(self).exception_blocks,
            links_kept(old(self).cfg.blocks@, final(self).cfg.blocks@),
            r.is_ok() ==> final(self).stmt_count() == old(self).stmt_count(),
            r.is_ok() ==> final(self).inv() && final(self).block_count() == old(self).block_count(),
            r matches Err(m) ==> construction_error(m@),
            Self::defs_kept(*old(self), *final(self)),
            r matches Ok(e) ==> expr_read_shape(op@, e@),
            r is Ok ==> forall|k: Seq<char>| #[trigger] expr_vars(op@).contains(k) ==> final(self).knows(block, k),
            expr_vars(op@).len() == 0 ==> (r matches Ok(e) && e@ == op@) && *final(self) == *old(self),
    {
        match op {
            Expression::Atomic(a) => match self.read_atomic(a, block) {
                Ok(x) => Ok(Expression::Atomic(x)),
                Err(e) => Err(e),
            },
            Expression::Parameter(param) => {
                let ghost s0 = *self;
                let new_param = match param {
                    Parameter::Signal { index, size } => {
                        let ghost iv = index@;
                        let ghost sv = size@;
                        let index = match self.read_atomic(index, block) {
                            Ok(x) => x,
                            Err(e) => {
                                return Err(e);
                            },
                        };
                        let ghost s1 = *self;
                        let size = match self.read_atomic(size, block) {
                            Ok(x) => x,
                            Err(e) => {
                                return Err(e);
                            },
                        };
                        proof {
                            self.lemma_read_params(s0, s1, block);
                            assert forall|k: Seq<char>| #[trigger] expr_vars(op@).contains(k) implies self.knows(block, k) by {
                                lemma_concat_contains(atomic_vars(iv), atomic_vars(sv), k);
                                if atomic_vars(iv).contains(k) {
                                    assert(s1.knows(block, k));
                                }
                            }
                        }
                        Parameter::Signal { index, size }
                    },
                    Parameter::I64Memory { index, size } => {
                        let ghost iv = index@;
                        let ghost sv = size@;
                        let index = match self.read_atomic(index, block) {
                            Ok(x) => x,
                            Err(e) => {
                                return Err(e);
                            },
                        };
                        let ghost s1 = *self;
                        let size = match self.read_atomic(size, block) {
                            Ok(x) => x,
                            Err(e) => {
                                return Err(e);
                            },
                        };
                        proof {
                            self.lemma_read_params(s0, s1, block);
                            assert forall|k: Seq<char>| #[trigger] expr_vars(op@).contains(k) implies self.knows(block, k) by {
                                lemma_concat_contains(atomic_vars(iv), atomic_vars(sv), k);
                                if atomic_vars(iv).contains(k) {
                                    assert(s1.knows(block, k));
                                }
                            }
                        }
                        Parameter::I64Memory { index, size }
                    },
                    Parameter::FfMemory { index, size } => {
                        let ghost iv = index@;
                        let ghost sv = size@;
                        let index = match self.read_atomic(index, block) {
                            Ok(x) => x,
                            Err(e) => {
                                return Err(e);
                            },
                        };
                        let ghost s1 = *self;
                        let size = match self.read_atomic(size, block) {
                            Ok(x) => x,
                            Err(e) => {
                                return Err(e);
                            },
                        };
                        proof {
                            self.lemma_read_params(s0, s1, block);
                            assert forall|k: Seq<char>| #[trigger] expr_vars(op@).contains(k) implies self.knows(block, k) by {
                                lemma_concat_contains(atomic_vars(iv), atomic_vars(sv), k);
                                if atomic_vars(iv).contains(k) {
                                    assert(s1.knows(block, k));
                                }
                            }
                        }
                        Parameter::FfMemory { index, size }
                    },
                    Parameter::SubcmpSignal { component, index, size } => {
                        let ghost cv = component@;
                        let ghost iv = index@;
                        let ghost sv = size@;
                        let component = match self.read_atomic(component, block) {
                            Ok(x) => x,
                            Err(e) => {
                                return Err(e);
                            },
                        };
                        let ghost s1 = *self;
                        let index = match self.read_atomic(index, block) {
                            Ok(x) => x,
                            Err(e) => {
                                return Err(e);
                            },
                        };
                        let ghost s2 = *self;
                        let size = match self.read_atomic(size, block) {
                            Ok(x) => x,
                            Err(e) => {
                                return Err(e);
                            },
                        };
                        proof {
                            self.lemma_read_params(s0, s1, block);
                            self.lemma_read_params(s1, s2, block);
                            assert forall|k: Seq<char>| #[trigger] expr_vars(op@).contains(k) implies self.knows(block, k) by {
                                lemma_concat_contains(atomic_vars(cv) + atomic_vars(iv), atomic_vars(sv), k);
                                lemma_concat_contains(atomic_vars(cv), atomic_vars(iv), k);
                                if atomic_vars(cv).contains(k) {
                                    assert(s1.knows(block, k));
                                    assert(s2.knows(block, k));
                                }
                                if atomic_vars(iv).contains(k) {
                                    assert(s2.knows(block, k));
                                }
                            }
                        }
                        Parameter::SubcmpSignal { component, index, size }
                    },
                };
                Ok(Expression::Parameter(new_param))
            },
        }
    }

    /// What one read of a parameter's atomic kept memorized in `block` stays so.
    proof fn lemma_read_params(&self, s0: CfgConstructor, s1: CfgConstructor, block: usize)
        requires
            Self::defs_kept(s0, s1),
            Self::defs_kept(s1, *self),
            block < s0.definitions@.len(),
        ensures
            Self::defs_kept(s0, *self),
            forall|k: Seq<char>| #[trigger] s1.knows(block, k) ==> self.knows(block, k),
    {
    }

    /// Records that the instruction at `line` of `block` reads the variables of `used`.
    fn track_use_instruction(&mut self, used: &Expression, block: usize, line: LineInstruction)
        requires
            old(self).inv(),
            block < old(self).block_count(),
        ensures
            final(self).live_fresh == old(self).live_fresh,
            final(self).exception_blocks == old(self).exception_blocks,
            links_kept(old(self).cfg.blocks@, final(self).cfg.blocks@),
            final(self).stmt_count() == old(self).stmt_count(),
            final(self).inv(),
            final(self).block_count() == old(self).block_count(),
            forall|k: Seq<char>| #[trigger] final(self).held(k) == (if expr_vars(used@).contains(k) {
                old(self).held(k).insert(UseTemp::InBlock(Use::InInstruction(block, line)))
            } else {
                old(self).held(k)
            }),
            final(self).cfg.blocks == old(self).cfg.blocks,
            final(self).cfg.definitions == old(self).cfg.definitions,
            forall|k: Seq<char>| #[trigger] final(self).cfg.uses_of(k) == (if expr_vars(used@).contains(k) {
                old(self).cfg.uses_of(k).insert(Use::InInstruction(block, line))
            } else {
                old(self).cfg.uses_of(k)
            }),
            *final(self) == (CfgConstructor { cfg: final(self).cfg, uses: final(self).uses, ..*old(self) }),
    {
        let names = get_variable_names(used);
        let ghost vs = names@.map_values(|s: String| s@);
        let ghost n = self.cfg.blocks@.len();
        let ghost x = UseTemp::InBlock(Use::InInstruction(block, line));
        let ghost y = Use::InInstruction(block, line);
        let mut i: usize = 0;
        proof {
            assert forall|k: Seq<char>| #[trigger] self.held(k) == (if vs.take(0).contains(k) { old(self).held(k).insert(x) } else { old(self).held(k) }) by {
                assert(!vs.take(0).contains(k));
            }
            assert forall|k: Seq<char>| #[trigger] self.cfg.uses_of(k) == (if vs.take(0).contains(k) { old(self).cfg.uses_of(k).insert(y) } else { old(self).cfg.uses_of(k) }) by {
                assert(!vs.take(0).contains(k));
            }
        }
        while i < names.len()
            invariant
                self.live_fresh == old(self).live_fresh,
                self.exception_blocks == old(self).exception_blocks,
                links_kept(old(self).cfg.blocks@, self.cfg.blocks@),
                self.stmt_count() == old(self).stmt_count(),
                self.inv(),
                self.cfg.blocks@.len() == n,
                block < n,
                i <= names@.len(),
                vs == names@.map_values(|s: String| s@),
                vs == expr_vars(used@),
                x == UseTemp::InBlock(Use::InInstruction(block, line)),
                y == Use::InInstruction(block, line),
                forall|k: Seq<char>| #[trigger] self.held(k) == (if vs.take(i as int).contains(k) { old(self).held(k).insert(x) } else { old(self).held(k) }),
                forall|k: Seq<char>| #[trigger] self.cfg.uses_of(k) == (if vs.take(i as int).contains(k) { old(self).cfg.uses_of(k).insert(y) } else { old(self).cfg.uses_of(k) }),
                self.cfg.blocks == old(self).cfg.blocks,
                self.cfg.definitions == old(self).cfg.definitions,
                *self == (CfgConstructor { cfg: self.cfg, uses: self.uses, ..*old(self) }),
            decreases names@.len() - i,
        {
            let ghost prev = *self;
            let name = names[i].clone();
            proof {
                assert(name@ == vs[i as int]);
            }
            self.track_variable_use(name, block, line);
            proof {
                let t0 = vs.take(i as int);
                let t1 = vs.take(i + 1);
                assert forall|k: Seq<char>| #[trigger] self.held(k) == (if t1.contains(k) { old(self).held(k).insert(x) } else { old(self).held(k) }) by {
                    assert(self.held(k) == (if k == vs[i as int] { prev.held(k).insert(x) } else { prev.held(k) }));
                    assert(prev.held(k) == (if t0.contains(k) { old(self).held(k).insert(x) } else { old(self).held(k) }));
                    if k == vs[i as int] {
                        assert(t1[i as int] == k);
                    }
                    if t1.contains(k) && k != vs[i as int] {
                        let j = choose|j: int| 0 <= j < i + 1 && #[trigger] t1[j] == k;
                        assert(t0[j] == k);
                    }
                    if t0.contains(k) {
                        let j = choose|j: int| 0 <= j < i && #[trigger] t0[j] == k;
                        assert(t1[j] == k);
                    }
                }
                assert forall|k: Seq<char>| #[trigger] self.cfg.uses_of(k) == (if t1.contains(k) { old(self).cfg.uses_of(k).insert(y) } else { old(self).cfg.uses_of(k) }) by {
                    assert(prev.cfg.uses_of(k) == (if t0.contains(k) { old(self).cfg.uses_of(k).insert(y) } else { old(self).cfg.uses_of(k) }));
                    if k == vs[i as int] {
                        assert(self.cfg.uses_view().contains_key(k));
                        assert(self.cfg.uses_of(k) == prev.cfg.uses_of(k).insert(y));
                        assert(t1[i as int] == k);
                    } else {
                        assert(self.cfg.uses_view().contains_key(k) == prev.cfg.uses_view().contains_key(k));
                        assert(self.cfg.uses_of(k) == prev.cfg.uses_of(k));
                    }
                    if t1.contains(k) && k != vs[i as int] {
                        let j = choose|j: int| 0 <= j < i + 1 && #[trigger] t1[j] == k;
                        assert(t0[j] == k);
                    }
                    if t0.contains(k) {
                        let j = choose|j: int| 0 <= j < i && #[trigger] t0[j] == k;
                        assert(t1[j] == k);
                    }
                }
            }
            i = i + 1;
        }
        proof {
            assert(vs.take(names@.len() as int) =~= vs);
        }
    }

    /// Records that the branch condition of `block` reads `op`, which must be an atomic.
    fn track_use_condition(&mut self, op: &Expression, block: usize) -> (r: Result<(), String>)
        requires
            old(self).inv(),
            block < old(self).block_count(),
        ensures
            final(self).live_fresh == old(self).live_fresh,
            final(self).exception_blocks == old(self).exception_blocks,
            links_kept(old(self).cfg.blocks@, final(self).cfg.blocks@),
            r.is_ok() ==> final(self).stmt_count() == old(self).stmt_count(),
            r.is_ok() ==> final(self).inv() && final(self).block_count() == old(self).block_count(),
            r matches Err(m) ==> m@ == condition_parameter_message() && construction_error(m@),
            r.is_err() <==> op is Parameter,
    {
        match op {
            Expression::Atomic(Atomic::Variable(var)) => {
                self.add_temp_use(var.clone(), UseTemp::InBlock(Use::InCondition(block)));
                let ghost before = *self;
                self.cfg.track_use_condition(block, var.clone());
                proof {
                    self.lemma_inv_graph_step(before);
                }
                Ok(())
            },
            Expression::Parameter(_) => Err(owned("The condition of a branch cannot be a parameter for a function")),
            _ => Ok(()),
        }
    }

    fn handle_operation(
        &mut self,
        curr: usize,
        num_type: &Option<NumericType>,
        operator: &Option<Operator>,
        output: &Option<String>,
        operands: &Vec<Expression>,
    ) -> (r: Result<usize, String>)
        requires
            old(self).inv(),
            curr < old(self).block_count(),
        ensures
            final(self).live_fresh == old(self).live_fresh,
            final(self).exception_blocks == old(self).exception_blocks,
            links_kept(old(self).cfg.blocks@, final(self).cfg.blocks@),
            r.is_ok() ==> final(self).stmt_count() == old(self).stmt_count() + 1,
            r.is_ok() ==> final(self).inv() && final(self).block_count() == old(self).block_count(),
            r matches Ok(b) ==> b == curr,
            r matches Err(m) ==> construction_error(m@),
    {
        let ghost n = self.cfg.blocks@.len();
        let mut ops: Vec<Expression> = Vec::new();
        let mut i: usize = 0;
        while i < operands.len()
            invariant
                self.live_fresh == old(self).live_fresh,
                self.exception_blocks == old(self).exception_blocks,
                links_kept(old(self).cfg.blocks@, self.cfg.blocks@),
                self.stmt_count() == old(self).stmt_count(),
                self.inv(),
                self.cfg.blocks@.len() == n,
                curr < n,
                i <= operands@.len(),
            decreases operands@.len() - i,
        {
            let e = match self.read_expression(&operands[i], curr) {
                Ok(e) => e,
                Err(e) => {
                    return Err(e);
                },
            };
            ops.push(e);
            i = i + 1;
        }
        let pos = self.cfg.get_block_size(curr);
        let mut j: usize = 0;
        while j < ops.len()
            invariant
                self.live_fresh == old(self).live_fresh,
                self.exception_blocks == old(self).exception_blocks,
                links_kept(old(self).cfg.blocks@, self.cfg.blocks@),
                self.stmt_count() == old(self).stmt_count(),
                self.inv(),
                self.cfg.blocks@.len() == n,
                curr < n,
                j <= ops@.len(),
            decreases ops@.len() - j,
        {
            self.track_use_instruction(&ops[j], curr, LineInstruction { is_phi: false, line: pos });
            j = j + 1;
        }
        let val = Value { operator: *operator, operands: ops };
        let var = match output {
            Some(v) => Some(self.write_variable(v.as_str(), curr)),
            None => None,
        };
        let stmt = Statement { num_type: *num_type, output: var, value: val };
        let ghost stmt_g = stmt;
        let ghost before = *self;
        match self.cfg.add_instruction(curr, stmt) {
            Ok(()) => {},
            Err(e) => {
                proof {
                    match stmt_g.output {
                        Some(o) => {
                            assert(e@ == defined_twice_message(o@));
                        },
                        None => {},
                    }
                }
                return Err(e);
            },
        }
        proof {
            self.lemma_inv_graph_step(before);
        }
        Ok(curr)
    }

    /// Helper: create a new block and link from `curr`
    fn create_and_link(&mut self, curr: usize) -> (r: Result<usize, String>)
        requires
            old(self).inv(),
            curr < old(self).block_count(),
        ensures
            final(self).live_fresh == old(self).live_fresh,
            r is Ok ==> outside_kept(old(self).cfg.blocks@, final(self).cfg.blocks@, curr, None),
            r is Ok ==> final(self).exception_blocks == old(self).exception_blocks,
            r matches Ok(b) ==> final(self).cfg.blocks@[b as int].successors is None,
            r.is_ok() ==> final(self).stmt_count() == old(self).stmt_count(),
            match r {
                Ok(b) => {
                    &&& final(self).inv()
                    &&& b == old(self).block_count()
                    &&& final(self).block_count() == old(self).block_count() + 1
                },
                Err(m) => construction_error(m@),
            },
    {
        let b = match self.create_block() {
            Ok(b) => b,
            Err(e) => {
                return Err(e);
            },
        };
        let ghost mid = self.cfg.blocks@;
        self.link(curr, b);
        proof {
            let a = old(self).cfg.blocks@;
            let c = self.cfg.blocks@;
            assert forall|i: int| #![trigger c[i]] 0 <= i < a.len() && i != curr implies succ_targets(c[i].successors)
                == succ_targets(a[i].successors) && (!is_loop_block(None, i) ==> c[i].predecessors@ == a[i].predecessors@) by {
                assert(mid[i].predecessors@ == a[i].predecessors@);
                assert(succ_targets(mid[i].successors) == succ_targets(a[i].successors));
            }
        }
        Ok(b)
    }

    /// Process AST nodes into CFG from block `start`, returning the last block.
    /// Processing stops after an operation with the `Error` operator, a `break` or a
    /// `continue`; a branch on a parameter is refused.
    /// loop_blocks: (entry, exit)
    pub fn process_body(&mut self, body: &[ASTNode], start: usize, loop_blocks: Option<(usize, usize)>) -> (r: Result<usize, String>)
        requires
            old(self).inv(),
            start < old(self).block_count(),
            loop_blocks matches Some((entry, exit)) ==> entry < old(self).block_count() && exit < old(self).block_count(),
            jumps_ok(body@, loop_blocks is Some),
        ensures
            final(self).starts_without_live_sets() == old(self).starts_without_live_sets(),
            r.is_ok() ==> final(self).block_count() == old(self).block_count() + blocks_reached(body@),
            r.is_ok() ==> final(self).stmt_count() == old(self).stmt_count() + ops_reached(body@),
            match r {
                Ok(last) => {
                    &&& final(self).inv()
                    &&& old(self).block_count() <= final(self).block_count()
                    &&& last < final(self).block_count()
                },
                Err(m) => construction_error(m@),
            },
            straight(body@) ==> (r matches Ok(last) ==> last == start),
            plain(body@) ==> final(self).exits_by_error() == old(self).exits_by_error() && links_kept(
                old(self).graph().blocks@,
                final(self).graph().blocks@,
            ),
            r is Ok ==> outside_kept(old(self).graph().blocks@, final(self).graph().blocks@, start, loop_blocks),
            r is Ok ==> errors_added(old(self).exits_by_error(), final(self).exits_by_error(), start, old(self).block_count()),
            r matches Ok(last) ==> last == start || old(self).block_count() <= last,
            r matches Ok(last) ==> (open_body(body@) && old(self).graph().blocks@[start as int].successors is None
                && !old(self).exits_by_error().contains(start) ==> final(self).graph().blocks@[last as int].successors is None
                && !final(self).exits_by_error().contains(last)),
            branches_on_parameter(body@) ==> r.is_err(),
            branches_on_fixed_parameter(body@) ==> (r matches Err(m) && m@ == condition_parameter_message()),
        decreases body@, 0nat,
    {
        let ghost n0 = self.cfg.blocks@.len();
        let ghost in_loop = loop_blocks is Some;
        let ghost curr0 = start;
        let mut curr = start;
        let mut i: usize = 0;
        proof {
            assert(body@.skip(0) =~= body@);
        }
        while i < body.len()
            invariant
                self.live_fresh == old(self).live_fresh,
                self.inv(),
                n0 == old(self).block_count(),
                n0 <= self.cfg.blocks@.len(),
                curr < self.cfg.blocks@.len(),
                loop_blocks matches Some((entry, exit)) ==> entry < self.cfg.blocks@.len() && exit < self.cfg.blocks@.len(),
                in_loop == loop_blocks is Some,
                i <= body@.len(),
                jumps_ok(body@.skip(i as int), in_loop),
                self.stmt_count() + ops_reached(body@.skip(i as int)) == old(self).stmt_count() + ops_reached(body@),
                self.block_count() + blocks_reached(body@.skip(i as int)) == old(self).block_count() + blocks_reached(body@),
                curr0 == start,
                straight(body@) ==> curr == curr0 && straight(body@.skip(i as int)),
                plain(body@) ==> self.exception_blocks == old(self).exception_blocks && links_kept(
                    old(self).cfg.blocks@,
                    self.cfg.blocks@,
                ),
                outside_kept(old(self).cfg.blocks@, self.cfg.blocks@, start, loop_blocks),
                errors_added(old(self).exception_blocks@, self.exception_blocks@, start, n0),
                curr == start || n0 <= curr,
                open_body(body@) && old(self).cfg.blocks@[start as int].successors is None && !old(self).exception_blocks@.contains(
                    start,
                ) ==> self.cfg.blocks@[curr as int].successors is None && !self.exception_blocks@.contains(curr),
                branches_on_parameter(body@) ==> i == 0,
            decreases body@.len() - i,
        {
            let stmt = &body[i];
            proof {
                assert(body@.skip(i as int)[0] == body@[i as int]);
                assert(body@.skip(i as int).drop_first() =~= body@.skip(i + 1));
                assert(body@.skip(i as int).len() > 0);
            }
            match stmt {
                ASTNode::Operation { num_type, operator, output, operands } => {
                    let is_error = match operator {
                        Some(Operator::Error) => true,
                        _ => false,
                    };
                    let ghost pre = self.cfg.blocks@;
                    let new_curr = match self.handle_operation(curr, num_type, operator, output, operands) {
                        Ok(b) => b,
                        Err(e) => {
                            proof {
                                if plain(body@) {
                                    lemma_links_kept_trans(old(self).cfg.blocks@, pre, self.cfg.blocks@);
                                }
                            }
                            return Err(e);
                        },
                    };
                    proof {
                        if plain(body@) {
                            lemma_links_kept_trans(old(self).cfg.blocks@, pre, self.cfg.blocks@);
                        }
                        lemma_links_outside(pre, self.cfg.blocks@, start, loop_blocks);
                        lemma_outside_trans(old(self).cfg.blocks@, pre, self.cfg.blocks@, start, loop_blocks, start, loop_blocks);
                        lemma_targets_none(pre[curr as int].successors);
                        lemma_targets_none(self.cfg.blocks@[curr as int].successors);
                        assert(body@[i as int] == *stmt);
                    }
                    if is_error {
                        self.exception_blocks.insert(new_curr);
                        return Ok(new_curr);
                    }
                    curr = new_curr;
                },
                ASTNode::Loop { .. } => {
                    let ghost pre = self.cfg.blocks@;
                    let ghost prev = curr;
                    curr = match self.handle_loop(stmt, curr) {
                        Ok(b) => b,
                        Err(e) => {
                            return Err(e);
                        },
                    };
                    proof {
                        lemma_outside_trans(old(self).cfg.blocks@, pre, self.cfg.blocks@, start, loop_blocks, prev, None);
                    }
                },
                ASTNode::IfThenElse { condition, .. } => {
                    let ghost pre = self.cfg.blocks@;
                    let cond = match self.read_expression(condition, curr) {
                        Ok(c) => c,
                        Err(e) => {
                            return Err(e);
                        },
                    };
                    proof {
                        if branches_on_parameter(body@) {
                            assert(condition@ is Parameter);
                            assert(cond@ is Parameter);
                        }
                    }
                    let ghost pre1 = self.cfg.blocks@;
                    match self.track_use_condition(&cond, curr) {
                        Ok(()) => {},
                        Err(e) => {
                            return Err(e);
                        },
                    }
                    let ghost pre2 = self.cfg.blocks@;
                    let ghost prev = curr;
                    proof {
                        lemma_links_kept_trans(pre, pre1, pre2);
                        lemma_links_outside(pre, pre2, start, loop_blocks);
                        lemma_outside_trans(old(self).cfg.blocks@, pre, pre2, start, loop_blocks, start, loop_blocks);
                    }
                    curr = match self.handle_if(stmt, &cond, curr, loop_blocks) {
                        Ok(b) => b,
                        Err(e) => {
                            return Err(e);
                        },
                    };
                    proof {
                        lemma_outside_trans(old(self).cfg.blocks@, pre2, self.cfg.blocks@, start, loop_blocks, prev, loop_blocks);
                    }
                },
                ASTNode::Break => {
                    let (_, out) = loop_blocks.unwrap();
                    let ghost pre = self.cfg.blocks@;
                    self.link(curr, out);
                    proof {
                        let c = self.cfg.blocks@;
                        assert forall|k: int| #![trigger c[k]] 0 <= k < pre.len() && k != curr implies succ_targets(c[k].successors)
                            == succ_targets(pre[k].successors) && (!is_loop_block(loop_blocks, k) ==> c[k].predecessors@
                            == pre[k].predecessors@) by {}
                        lemma_outside_trans(old(self).cfg.blocks@, pre, c, start, loop_blocks, curr, loop_blocks);
                    }
                    return Ok(curr);
                },
                ASTNode::Continue => {
                    let (entry, _) = loop_blocks.unwrap();
                    let ghost pre = self.cfg.blocks@;
                    self.link(curr, entry);
                    proof {
                        let c = self.cfg.blocks@;
                        assert forall|k: int| #![trigger c[k]] 0 <= k < pre.len() && k != curr implies succ_targets(c[k].successors)
                            == succ_targets(pre[k].successors) && (!is_loop_block(loop_blocks, k) ==> c[k].predecessors@
                            == pre[k].predecessors@) by {}
                        lemma_outside_trans(old(self).cfg.blocks@, pre, c, start, loop_blocks, curr, loop_blocks);
                    }
                    return Ok(curr);
                },
            }
            i = i + 1;
        }
        Ok(curr)
    }

    fn handle_loop(&mut self, node: &ASTNode, curr: usize) -> (r: Result<usize, String>)
        requires
            old(self).inv(),
            curr < old(self).block_count(),
            *node matches ASTNode::Loop { body } && jumps_ok(body@, true),
        ensures
            final(self).live_fresh == old(self).live_fresh,
            r.is_ok() ==> (*node matches ASTNode::Loop { body } && final(self).block_count() == old(self).block_count() + 2 + blocks_reached(body@)),
            r.is_ok() ==> (*node matches ASTNode::Loop { body } && final(self).stmt_count() == old(self).stmt_count() + ops_reached(body@)),
            r matches Ok(after) ==> {
                &&& outside_kept(old(self).cfg.blocks@, final(self).cfg.blocks@, curr, None)
                &&& errors_added(old(self).exception_blocks@, final(self).exception_blocks@, curr, old(self).block_count())
                &&& old(self).block_count() <= after
                &&& final(self).cfg.blocks@[after as int].successors is None
                &&& !final(self).exception_blocks@.contains(after)
            },
            match r {
                Ok(last) => {
                    &&& final(self).inv()
                    &&& old(self).block_count() <= final(self).block_count()
                    &&& last < final(self).block_count()
                },
                Err(m) => construction_error(m@),
            },
        decreases *node, 1nat,
    {
        match node {
            ASTNode::Loop { body: loop_body } => {
                // Add new block for the loop body (if the current is not empty)
                let entry = match self.create_and_link(curr) {
                    Ok(b) => b,
                    Err(e) => {
                        return Err(e);
                    },
                };
                // Add new block for the instructions after the loop
                let after = match self.create_block() {
                    Ok(b) => b,
                    Err(e) => {
                        return Err(e);
                    },
                };
                let ghost s2 = self.cfg.blocks@;
                proof {
                    lemma_targets_none(s2[after as int].successors);
                }
                // The block that will be the last one in the loop
                let last = match self.process_body(loop_body.as_slice(), entry, Some((entry, after))) {
                    Ok(b) => b,
                    Err(e) => {
                        return Err(e);
                    },
                };
                let ghost s3 = self.cfg.blocks@;
                proof {
                    assert(self.cfg.block_ok(last as int));
                    assert(succ_targets(s3[after as int].successors) == succ_targets(s2[after as int].successors));
                    lemma_targets_none(s3[after as int].successors);
                    assert(last != after);
                }
                if self.cfg.predecessors(last).len() > 0 && !self.exception_blocks.contains(&last) {
                    self.link(last, after);
                }
                proof {
                    assert(self.cfg.blocks@[after as int].successors is None);
                }
                // Seal the blocks
                match self.seal_block(entry) {
                    Ok(()) => {},
                    Err(e) => {
                        return Err(e);
                    },
                }
                match self.seal_block(after) {
                    Ok(()) => {},
                    Err(e) => {
                        return Err(e);
                    },
                }
                proof {
                    lemma_targets_none(self.cfg.blocks@[after as int].successors);
                }
                // Continue after the loop
                Ok(after)
            },
            _ => Ok(curr),
        }
    }

    #[verifier::rlimit(60)]
    fn handle_if(&mut self, node: &ASTNode, condition: &Expression, curr: usize, loop_blocks: Option<(usize, usize)>) -> (r: Result<usize, String>)
        requires
            old(self).inv(),
            curr < old(self).block_count(),
            loop_blocks matches Some((entry, exit)) ==> entry < old(self).block_count() && exit < old(self).block_count(),
            *node matches ASTNode::IfThenElse { if_case, else_case, .. } && {
                &&& jumps_ok(if_case@, loop_blocks is Some)
                &&& else_case matches Some(e) ==> jumps_ok(e@, loop_blocks is Some)
            },
        ensures
            final(self).live_fresh == old(self).live_fresh,
            r.is_ok() ==> (*node matches ASTNode::IfThenElse { if_case, else_case, .. } && final(self).block_count() == old(self).block_count() + blocks_reached(if_case@) + match else_case {
                Some(e) => 3 + blocks_reached(e@),
                None => 2,
            }),
            r.is_ok() ==> (*node matches ASTNode::IfThenElse { if_case, else_case, .. } && final(self).stmt_count() == old(self).stmt_count() + ops_reached(if_case@) + match else_case {
                Some(e) => ops_reached(e@),
                None => 0,
            }),
            r matches Ok(j) ==> j == old(self).block_count() + 1,
            r matches Ok(j) ==> {
                &&& outside_kept(old(self).cfg.blocks@, final(self).cfg.blocks@, curr, loop_blocks)
                &&& errors_added(old(self).exception_blocks@, final(self).exception_blocks@, curr, old(self).block_count())
                &&& final(self).cfg.blocks@[j as int].successors is None
                &&& !final(self).exception_blocks@.contains(j)
            },
            r matches Ok(j) ==> (*node matches ASTNode::IfThenElse { if_case, else_case, .. } ==> {
                &&& open_body(if_case@) ==> (exists|p: usize|
                    #[trigger] final(self).cfg.blocks@[j as int].predecessors@.contains(p) && in_then_part(
                        old(self).block_count(),
                        else_case is Some,
                        blocks_reached(if_case@),
                        p,
                    ))
                &&& match else_case {
                    Some(e) => open_body(e@) ==> (exists|p: usize|
                        #[trigger] final(self).cfg.blocks@[j as int].predecessors@.contains(p) && in_else_part(
                            old(self).block_count(),
                            blocks_reached(if_case@),
                            blocks_reached(e@),
                            p,
                        )),
                    None => true,
                }
            }),
            r is Ok ==> (*node matches ASTNode::IfThenElse { if_case, else_case, .. } ==> (plain(if_case@) ==> match else_case {
                Some(e) => plain(e@) ==> final(self).cfg.blocks@[old(self).block_count() + 1int].predecessors@ == seq![
                    old(self).block_count() as usize,
                    (old(self).block_count() + 2) as usize,
                ],
                None => final(self).cfg.blocks@[old(self).block_count() + 1int].predecessors@.len() > 0 && final(self).cfg.blocks@[
                    old(self).block_count() + 1int].predecessors@.last() == old(self).block_count() as usize,
            })),
            match r {
                Ok(last) => {
                    &&& final(self).inv()
                    &&& old(self).block_count() <= final(self).block_count()
                    &&& last < final(self).block_count()
                },
                Err(m) => construction_error(m@),
            },
        decreases *node, 1nat,
    {
        match node {
            ASTNode::IfThenElse { num_type, if_case, else_case, .. } => {
                let ghost n0 = self.cfg.blocks@.len();
                let ghost a0 = self.cfg.blocks@;
                let ghost exc0 = self.exception_blocks@;
                // If body
                let then_b = match self.create_block() {
                    Ok(b) => b,
                    Err(e) => {
                        return Err(e);
                    },
                };
                let ghost sa = self.cfg.blocks@;
                // Convergence block
                let join = match self.create_block() {
                    Ok(b) => b,
                    Err(e) => {
                        return Err(e);
                    },
                };
                let ghost sb = self.cfg.blocks@;
                proof {
                    lemma_links_kept_trans(a0, sa, sb);
                    lemma_targets_none(sb[then_b as int].successors);
                }
                // Add else block (optional)
                let else_b = if else_case.is_some() {
                    match self.create_block() {
                        Ok(b) => b,
                        Err(e) => {
                            return Err(e);
                        },
                    }
                } else {
                    join
                };
                let ghost c0 = self.cfg.blocks@;
                proof {
                    lemma_links_kept_trans(a0, sb, c0);
                    lemma_targets_none(c0[then_b as int].successors);
                    lemma_targets_none(c0[join as int].successors);
                    assert(c0[then_b as int].successors is None);
                    assert(c0[else_b as int].successors is None);
                    assert(c0[join as int].successors is None);
                    assert(c0[join as int].predecessors@.len() == 0 || else_b == join);
                }
                // Link current block with the then and else blocks
                let ghost before = *self;
                self.cfg.add_cond_link(curr, *num_type, condition.duplicate(), then_b, else_b);
                proof {
                    self.lemma_inv_graph_step(before);
                }
                let ghost c1 = self.cfg.blocks@;
                proof {
                    assert(c1[then_b as int].successors is None);
                    assert(c1[else_b as int].successors is None);
                    assert(c1[join as int].successors is None);
                    assert(else_b != join ==> c1[join as int].predecessors@.len() == 0);
                    assert forall|i: int| #![trigger c1[i]] 0 <= i < a0.len() && i != curr implies succ_targets(c1[i].successors)
                        == succ_targets(a0[i].successors) && (!is_loop_block(loop_blocks, i) ==> c1[i].predecessors@
                        == a0[i].predecessors@) by {
                        assert(c0[i].predecessors@ == a0[i].predecessors@);
                        assert(succ_targets(c0[i].successors) == succ_targets(a0[i].successors));
                    }
                    assert(outside_kept(a0, c1, curr, loop_blocks));
                }
                // Seal the blocks that start then and else
                match self.seal_block(then_b) {
                    Ok(()) => {},
                    Err(e) => {
                        return Err(e);
                    },
                }
                let ghost c2 = self.cfg.blocks@;
                // Ensure the join is not accidentally sealed
                if else_case.is_some() {
                    match self.seal_block(else_b) {
                        Ok(()) => {},
                        Err(e) => {
                            return Err(e);
                        },
                    }
                }
                let ghost c3 = self.cfg.blocks@;
                let ghost exc3 = self.exception_blocks@;
                proof {
                    lemma_links_kept_trans(c1, c2, c3);
                    lemma_links_outside(c1, c3, curr, loop_blocks);
                    lemma_outside_trans(a0, c1, c3, curr, loop_blocks, curr, loop_blocks);
                    lemma_targets_none(c1[then_b as int].successors);
                    lemma_targets_none(c1[else_b as int].successors);
                    lemma_targets_none(c1[join as int].successors);
                    lemma_targets_none(c3[then_b as int].successors);
                    lemma_targets_none(c3[else_b as int].successors);
                    lemma_targets_none(c3[join as int].successors);
                    assert(exc3 == exc0);
                    assert(!exc0.contains(then_b) && !exc0.contains(join) && !exc0.contains(else_b));
                }
                // Process then case
                let end_then = match self.process_body(if_case.as_slice(), then_b, loop_blocks) {
                    Ok(b) => b,
                    Err(e) => {
                        return Err(e);
                    },
                };
                let ghost c4 = self.cfg.blocks@;
                let ghost exc4 = self.exception_blocks@;
                proof {
                    lemma_outside_trans(a0, c3, c4, curr, loop_blocks, then_b, loop_blocks);
                    lemma_targets_none(c4[join as int].successors);
                    lemma_targets_none(c4[else_b as int].successors);
                    assert(c4[join as int].predecessors@ == c3[join as int].predecessors@);
                    if plain(if_case@) {
                        lemma_plain_straight(if_case@);
                        assert(end_then == then_b);
                        assert(self.exception_blocks@ == exc0);
                        assert(succ_targets(c4[then_b as int].successors).len() == 0);
                        lemma_targets_none(c4[then_b as int].successors);
                        assert(c4[then_b as int].successors is None);
                    }
                }
                if !self.exception_blocks.contains(&end_then) {
                    self.link(end_then, join);
                }
                let ghost c5 = self.cfg.blocks@;
                proof {
                    if !exc4.contains(end_then) {
                        lemma_link_effect(c4, c5, end_then, join);
                    } else {
                        lemma_links_outside(c4, c5, end_then, Some((join, join)));
                    }
                    lemma_outside_trans(a0, c4, c5, curr, loop_blocks, end_then, Some((join, join)));
                    lemma_targets_none(c5[join as int].successors);
                    lemma_targets_none(c5[else_b as int].successors);
                    if open_body(if_case@) {
                        assert(c5[join as int].predecessors@ == c4[join as int].predecessors@.push(end_then));
                        assert(c5[join as int].predecessors@[c4[join as int].predecessors@.len() as int] == end_then);
                        assert(c5[join as int].predecessors@.contains(end_then));
                    }
                    if plain(if_case@) {
                        assert(c5[join as int].predecessors@ == c1[join as int].predecessors@.push(then_b));
                    }
                }
                let ghost mut else_last: usize = else_b;
                let ghost n5 = c5.len();
                match else_case {
                    Some(else_stmts) => {
                        let end_else = match self.process_body(else_stmts.as_slice(), else_b, loop_blocks) {
                            Ok(b) => b,
                            Err(e) => {
                                return Err(e);
                            },
                        };
                        proof {
                            else_last = end_else;
                            assert(end_else == else_b || (n5 <= end_else < n5 + blocks_reached(else_stmts@)));
                        }
                        let ghost c6 = self.cfg.blocks@;
                        proof {
                            lemma_outside_trans(a0, c5, c6, curr, loop_blocks, else_b, loop_blocks);
                            lemma_targets_none(c6[join as int].successors);
                            assert(c6[join as int].predecessors@ == c5[join as int].predecessors@);
                            if plain(if_case@) && plain(else_stmts@) {
                                lemma_plain_straight(else_stmts@);
                                assert(end_else == else_b);
                                lemma_targets_none(c6[else_b as int].successors);
                                assert(c6[else_b as int].successors is None);
                            }
                        }
                        let ghost exc6 = self.exception_blocks@;
                        if !self.exception_blocks.contains(&end_else) {
                            self.link(end_else, join);
                        }
                        proof {
                            let c7 = self.cfg.blocks@;
                            if !exc6.contains(end_else) {
                                lemma_link_effect(c6, c7, end_else, join);
                            } else {
                                lemma_links_outside(c6, c7, end_else, Some((join, join)));
                            }
                            lemma_outside_trans(a0, c6, c7, curr, loop_blocks, end_else, Some((join, join)));
                            lemma_targets_none(c7[join as int].successors);
                            if open_body(else_stmts@) {
                                assert(c7[join as int].predecessors@ == c6[join as int].predecessors@.push(end_else));
                                assert(c7[join as int].predecessors@[c6[join as int].predecessors@.len() as int] == end_else);
                                assert(c7[join as int].predecessors@.contains(end_else));
                            }
                            if open_body(if_case@) {
                                assert(c6[join as int].predecessors@.contains(end_then));
                                let k = choose|k: int| 0 <= k < c6[join as int].predecessors@.len() && c6[join as int].predecessors@[k] == end_then;
                                assert(c7[join as int].predecessors@[k] == end_then);
                            }
                            if plain(if_case@) && plain(else_stmts@) {
                                assert(c7[join as int].predecessors@ =~= seq![then_b, else_b]);
                            }
                        }
                    },
                    None => {},
                }
                let ghost c7 = self.cfg.blocks@;
                // Seal join
                match self.seal_block(join) {
                    Ok(()) => {},
                    Err(e) => {
                        return Err(e);
                    },
                }
                proof {
                    lemma_links_outside(c7, self.cfg.blocks@, curr, loop_blocks);
                    lemma_outside_trans(a0, c7, self.cfg.blocks@, curr, loop_blocks, curr, loop_blocks);
                    assert(self.cfg.blocks@[join as int].predecessors@ == c7[join as int].predecessors@);
                    lemma_targets_none(c7[join as int].successors);
                    lemma_targets_none(self.cfg.blocks@[join as int].successors);
                    assert(end_then == then_b || (c3.len() <= end_then < c3.len() + blocks_reached(if_case@)));
                    assert(c3.len() == n0 + 2 + if else_case is Some { 1nat } else { 0nat });
                    if open_body(if_case@) {
                        assert(self.cfg.blocks@[join as int].predecessors@.contains(end_then));
                        assert(in_then_part(n0, else_case is Some, blocks_reached(if_case@), end_then));
                    }
                    match else_case {
                        Some(e) => {
                            assert(n5 == n0 + 3 + blocks_reached(if_case@));
                            if open_body(e@) {
                                assert(self.cfg.blocks@[join as int].predecessors@.contains(else_last));
                                assert(in_else_part(n0, blocks_reached(if_case@), blocks_reached(e@), else_last));
                            }
                        },
                        None => {},
                    }
                }
                Ok(join)
            },
            _ => Ok(curr),
        }
    }

    /// The number of distinct original names written or read so far.
    pub closed spec fn original_name_count(&self) -> nat {
        self.non_ssa_names@.dom().len()
    }

    pub fn get_non_ssa(&self) -> (r: usize)
        requires
            self.inv(),
        ensures
            r == self.original_name_count(),
    {
        proof {
            crate::collections::lemma_seq_map_finite(self.non_ssa_names.entries@);
        }
        self.non_ssa_names.len()
    }
}

/// Builds the graph of a body in SSA form and computes its live sets.
fn build_from_body(body: &[ASTNode]) -> (r: Result<CFG, String>)
    requires
        jumps_ok(body@, false),
    ensures
        match r {
            Ok(cfg) => {
                &&& cfg.wf()
                &&& cfg.entry == 0
                &&& cfg.ssa_ok()
                &&& forall|k: Seq<char>| #[trigger] cfg.def_use@.contains_key(k) ==> cfg.use_is_covered(k)
                &&& statement_total(cfg.blocks@) == ops_reached(body@)
                &&& cfg.blocks@.len() == 1 + blocks_reached(body@)
                &&& live_in_exact(cfg)
            },
            Err(m) => construction_error(m@) || liveness_error(m@),
        },
{
    let entry: usize = 0;
    let cfg = CFG::new(entry);
    proof {
        let e = Seq::<crate::cfg::BasicBlock>::empty();
        assert(cfg.blocks@ =~= e.push(cfg.blocks@[0]));
        crate::cfg::lemma_statement_total_push(e, cfg.blocks@[0]);
        assert(statement_total(e) == 0);
        assert(statement_total(cfg.blocks@) == 0);
    }
    proof {
        assert(live_in_empty(cfg.blocks@));
    }
    let mut constructor = CfgConstructor::new(cfg);
    match constructor.process_body(body, entry, None) {
        Ok(_) => {},
        Err(e) => {
            return Err(e);
        },
    }
    let non_ssa_variables = constructor.get_non_ssa();
    let mut cfg = constructor.into_cfg();
    let ghost built = cfg;
    cfg.non_ssa_variables = non_ssa_variables;
    proof {
        assert forall|i: int| 0 <= i < cfg.blocks@.len() implies #[trigger] cfg.block_ok(i) by {
            assert(built.block_ok(i));
        }
        assert forall|k: Seq<char>| #[trigger] cfg.def_use@.contains_key(k) implies cfg.uses_ok(k) by {
            assert(built.uses_ok(k));
        }
        assert forall|i: int| 0 <= i < built.blocks@.len() implies
            crate::cfg::same_outputs(#[trigger] cfg.blocks@[i], built.blocks@[i]) by {}
        cfg.lemma_ssa_kept(built);
    }
    let ghost before_live = cfg;
    match cfg.compute_livesets_ssa_by_var() {
        Ok(()) => {},
        Err(e) => {
            return Err(e);
        },
    }
    let block_total = cfg.blocks.len();
    proof {
        crate::cfg::lemma_statement_total(before_live.blocks@, cfg.blocks@, -1, 0);
        crate::cfg::lemma_statement_total(built.blocks@, before_live.blocks@, -1, 0);
        assert(block_total == cfg.blocks@.len());
        assert(live_in_empty(before_live.blocks@)) by {
            assert forall|b: int| 0 <= b < before_live.blocks@.len() implies (#[trigger] before_live.blocks@[b]).live_in@.len() == 0 by {
                assert(before_live.blocks@[b] == built.blocks@[b]);
            }
        }
        crate::liveness::lemma_change_sym(before_live.blocks@, cfg.blocks@);
        assert forall|b: int, x: Seq<char>| 0 <= b < cfg.blocks@.len() implies (#[trigger] names_view(cfg.blocks@[b].live_in@).contains(x)
            <==> (cfg.definitions@.contains_key(x) && cfg.def_use@.contains_key(x) && live_by_chain(
            cfg.blocks@,
            cfg.definitions@[x],
            cfg.def_use@[x]@,
            b as usize,
        ))) by {
            assert((b as usize) as int == b);
            if names_view(cfg.blocks@[b].live_in@).contains(x) {
                assert(before_live.blocks@[b].live_in@.len() == 0);
                assert(!names_view(before_live.blocks@[b].live_in@).contains(x));
                crate::liveness::lemma_live_by_chain_kept(
                    before_live.blocks@,
                    cfg.blocks@,
                    before_live.definitions@[x],
                    before_live.def_use@[x]@,
                    b as usize,
                );
            }
            if cfg.definitions@.contains_key(x) && cfg.def_use@.contains_key(x) && live_by_chain(
                cfg.blocks@,
                cfg.definitions@[x],
                cfg.def_use@[x]@,
                b as usize,
            ) {
                crate::liveness::lemma_live_by_chain_kept(cfg.blocks@, before_live.blocks@, cfg.definitions@[x], cfg.def_use@[x]@, b as usize);
                assert(before_live.def_use@.contains_key(x));
                assert(live_by_chain(before_live.blocks@, before_live.definitions@[x], before_live.def_use@[x]@, b as usize));
                assert(names_view(cfg.blocks@[(b as usize) as int].live_in@).contains(x));
            }
        }
    }
    Ok(cfg)
}

impl CFG {
    /// Builds the control flow graph of a function in SSA form and computes its
    /// live sets. The graph starts at block 0, every variable is defined by exactly
    /// one instruction, every variable that is read is defined and read only in
    /// blocks that its definition reaches, and the live-in list of each block holds
    /// exactly the variables live at its entry.
    pub fn new_from_fun(f: Function) -> (r: Result<CFG, String>)
        requires
            jumps_ok(f.body@, false),
        ensures
            match r {
                Ok(cfg) => {
                    &&& cfg.wf()
                    &&& cfg.entry == 0
                    &&& cfg.ssa_ok()
                    &&& forall|k: Seq<char>| #[trigger] cfg.def_use@.contains_key(k) ==> cfg.use_is_covered(k)
                    &&& statement_total(cfg.blocks@) == ops_reached(f.body@)
                    &&& cfg.blocks@.len() == 1 + blocks_reached(f.body@)
                    &&& live_in_exact(cfg)
                },
                Err(m) => construction_error(m@) || liveness_error(m@),
            },
    {
        build_from_body(f.body.as_slice())
    }

    /// Builds the control flow graph of a template in SSA form and computes its
    /// live sets, with the same guarantees as for a function.
    pub fn new_from_template(t: Template) -> (r: Result<CFG, String>)
        requires
            jumps_ok(t.body@, false),
        ensures
            match r {
                Ok(cfg) => {
                    &&& cfg.wf()
                    &&& cfg.entry == 0
                    &&& cfg.ssa_ok()
                    &&& forall|k: Seq<char>| #[trigger] cfg.def_use@.contains_key(k) ==> cfg.use_is_covered(k)
                    &&& statement_total(cfg.blocks@) == ops_reached(t.body@)
                    &&& cfg.blocks@.len() == 1 + blocks_reached(t.body@)
                    &&& live_in_exact(cfg)
                },
                Err(m) => construction_error(m@) || liveness_error(m@),
            },
    {
        build_from_body(t.body.as_slice())
    }
}

} // verus!
