//! Control flow graphs in SSA form: instructions, φ-functions, basic blocks, and
//! the graph with its definitions and def-use chains.

use vstd::prelude::*;

use crate::collections::{ItemSet, NameMap, Ranked};
use crate::text::{owned, push_text, same_text};
use crate::types::{
    rename_expr, replace_variable_in_expression, single_renaming, Atomic, Expression, NumericType,
    Operator, SpecAtomic, SpecExpression,
};

verus! {

broadcast use vstd::string::group_string_axioms;

/// The view of an optional name.
pub open spec fn opt_name(o: Option<String>) -> Option<Seq<char>> {
    match o {
        Some(s) => Some(s@),
        None => None,
    }
}

pub fn duplicate_opt_name(o: &Option<String>) -> (r: Option<String>)
    ensures
        opt_name(r) == opt_name(*o),
{
    match o {
        Some(s) => Some(s.clone()),
        None => None,
    }
}

/// The right-hand side of an instruction: an optional operator and its operands.
#[derive(Clone, Debug)]
pub struct Value {
    pub operator: Option<Operator>,
    pub operands: Vec<Expression>,
}

/// An instruction `output = num_type.operator operands`.
#[derive(Clone, Debug)]
pub struct Statement {
    pub num_type: Option<NumericType>,
    pub output: Option<String>,
    pub value: Value,
}

pub struct SpecStatement {
    pub num_type: Option<NumericType>,
    pub output: Option<Seq<char>>,
    pub operator: Option<Operator>,
    pub operands: Seq<SpecExpression>,
}

pub open spec fn exprs_view(s: Seq<Expression>) -> Seq<SpecExpression> {
    s.map_values(|e: Expression| e@)
}

impl View for Statement {
    type V = SpecStatement;

    open spec fn view(&self) -> SpecStatement {
        SpecStatement {
            num_type: self.num_type,
            output: opt_name(self.output),
            operator: self.value.operator,
            operands: exprs_view(self.value.operands@),
        }
    }
}

pub open spec fn stmts_view(s: Seq<Statement>) -> Seq<SpecStatement> {
    s.map_values(|st: Statement| st@)
}

pub fn duplicate_exprs(v: &Vec<Expression>) -> (r: Vec<Expression>)
    ensures
        exprs_view(r@) == exprs_view(v@),
{
    let mut r: Vec<Expression> = Vec::new();
    let mut i: usize = 0;
    while i < v.len()
        invariant
            i <= v@.len(),
            exprs_view(r@) == exprs_view(v@.take(i as int)),
        decreases v@.len() - i,
    {
        let e = v[i].duplicate();
        let ghost r0 = r@;
        r.push(e);
        proof {
            assert(v@.take(i + 1) =~= v@.take(i as int).push(v@[i as int]));
            assert(exprs_view(r@) =~= exprs_view(r0).push(e@));
            assert(exprs_view(v@.take(i as int).push(v@[i as int])) =~= exprs_view(v@.take(i as int)).push(v@[i as int]@));
        }
        i = i + 1;
    }
    proof {
        assert(v@.take(v@.len() as int) =~= v@);
    }
    r
}

impl Statement {
    pub fn duplicate(&self) -> (r: Statement)
        ensures
            r@ == self@,
    {
        Statement {
            num_type: self.num_type,
            output: duplicate_opt_name(&self.output),
            value: Value { operator: self.value.operator, operands: duplicate_exprs(&self.value.operands) },
        }
    }

    /// Whether the instruction is a plain copy `output = variable`.
    pub open spec fn spec_copy_source(self) -> Option<Seq<char>> {
        if self.value.operator.is_none() && self.value.operands@.len() == 1 {
            match self.value.operands@[0]@ {
                SpecExpression::Atomic(SpecAtomic::Variable(v)) => Some(v),
                _ => None,
            }
        } else {
            None
        }
    }

    /// Whether the instruction is a copy of a variable into itself.
    pub open spec fn spec_is_identity_copy(self) -> bool {
        match (opt_name(self.output), self.spec_copy_source()) {
            (Some(o), Some(s)) => o == s,
            _ => false,
        }
    }

    /// The source of a plain copy `output = variable`.
    pub fn copy_source(&self) -> (r: Option<&String>)
        ensures
            match r {
                Some(s) => self.spec_copy_source() == Some(s@),
                None => self.spec_copy_source().is_none(),
            },
    {
        if self.value.operator.is_none() && self.value.operands.len() == 1 {
            match &self.value.operands[0] {
                Expression::Atomic(Atomic::Variable(v)) => Some(v),
                _ => None,
            }
        } else {
            None
        }
    }

    /// Whether the instruction copies a variable into itself.
    pub fn is_identity_copy(&self) -> (r: bool)
        ensures
            r == self.spec_is_identity_copy(),
    {
        match (&self.output, self.copy_source()) {
            (Some(o), Some(s)) => *o == *s,
            _ => false,
        }
    }
}

/// The list of possibilities are the name of the ssa variable and the block where it comes from
#[derive(Clone, Debug)]
pub struct PhiPossibility {
    pub variable: String,
    pub block: usize,
}

impl View for PhiPossibility {
    type V = (Seq<char>, usize);

    open spec fn view(&self) -> (Seq<char>, usize) {
        (self.variable@, self.block)
    }
}

pub open spec fn poss_view(s: Seq<PhiPossibility>) -> Seq<(Seq<char>, usize)> {
    s.map_values(|p: PhiPossibility| p@)
}

pub fn duplicate_possibilities(v: &Vec<PhiPossibility>) -> (r: Vec<PhiPossibility>)
    ensures
        poss_view(r@) == poss_view(v@),
{
    let mut r: Vec<PhiPossibility> = Vec::new();
    let mut i: usize = 0;
    while i < v.len()
        invariant
            i <= v@.len(),
            poss_view(r@) == poss_view(v@.take(i as int)),
        decreases v@.len() - i,
    {
        let p = PhiPossibility { variable: v[i].variable.clone(), block: v[i].block };
        let ghost r0 = r@;
        r.push(p);
        proof {
            assert(v@.take(i + 1) =~= v@.take(i as int).push(v@[i as int]));
            assert(poss_view(r@) =~= poss_view(r0).push(p@));
            assert(poss_view(v@.take(i as int).push(v@[i as int])) =~= poss_view(v@.take(i as int)).push(v@[i as int]@));
        }
        i = i + 1;
    }
    proof {
        assert(v@.take(v@.len() as int) =~= v@);
    }
    r
}

/// A φ-function `output = φ(variable from block, ...)`.
#[derive(Clone, Debug)]
pub struct PhiFunction {
    pub output: String,
    pub possibilities: Vec<PhiPossibility>,
}

pub struct SpecPhi {
    pub output: Seq<char>,
    pub possibilities: Seq<(Seq<char>, usize)>,
}

impl View for PhiFunction {
    type V = SpecPhi;

    open spec fn view(&self) -> SpecPhi {
        SpecPhi { output: self.output@, possibilities: poss_view(self.possibilities@) }
    }
}

pub open spec fn phis_view(s: Seq<PhiFunction>) -> Seq<SpecPhi> {
    s.map_values(|p: PhiFunction| p@)
}

impl PhiFunction {
    pub fn duplicate(&self) -> (r: PhiFunction)
        ensures
            r@ == self@,
    {
        PhiFunction {
            output: self.output.clone(),
            possibilities: duplicate_possibilities(&self.possibilities),
        }
    }
}

/// How control leaves a block.
#[derive(Clone, Debug)]
pub enum Successor {
    Unconditional { to: usize },
    Conditional { num_type: NumericType, condition: Expression, to_then: usize, to_else: usize },
}

pub enum SpecSuccessor {
    Unconditional { to: usize },
    Conditional {
        num_type: NumericType,
        condition: SpecExpression,
        to_then: usize,
        to_else: usize,
    },
}

impl View for Successor {
    type V = SpecSuccessor;

    open spec fn view(&self) -> SpecSuccessor {
        match self {
            Successor::Unconditional { to } => SpecSuccessor::Unconditional { to: *to },
            Successor::Conditional { num_type, condition, to_then, to_else } => {
                SpecSuccessor::Conditional {
                    num_type: *num_type,
                    condition: condition@,
                    to_then: *to_then,
                    to_else: *to_else,
                }
            },
        }
    }
}

pub open spec fn opt_succ(o: Option<Successor>) -> Option<SpecSuccessor> {
    match o {
        Some(s) => Some(s@),
        None => None,
    }
}

/// The blocks that a successor can transfer control to.
/// Every edge is listed among the predecessors of the block it leads to.
pub open spec fn preds_listed(blocks: Seq<BasicBlock>) -> bool {
    forall|a: int, j: int|
        0 <= a < blocks.len() && 0 <= j < succ_targets(blocks[a].successors).len() ==> blocks[#[trigger] succ_targets(
            blocks[a].successors,
        )[j] as int].predecessors@.contains(a as usize)
}

/// The number of statements of the blocks.
pub open spec fn statement_total(blocks: Seq<BasicBlock>) -> nat
    decreases blocks.len(),
{
    if blocks.len() == 0 {
        0
    } else {
        statement_total(blocks.drop_last()) + blocks.last().statements@.len()
    }
}

/// Blocks with as many statements each have as many statements in all; where
/// one block `k` has `d` more, the blocks have `d` more in all.
pub proof fn lemma_statement_total(before: Seq<BasicBlock>, after: Seq<BasicBlock>, k: int, d: nat)
    requires
        after.len() == before.len(),
        forall|i: int| 0 <= i < before.len() && i != k ==> (#[trigger] after[i]).statements@.len() == before[i].statements@.len(),
        0 <= k < before.len() ==> after[k].statements@.len() == before[k].statements@.len() + d,
    ensures
        statement_total(after) == statement_total(before) + if 0 <= k < before.len() { d } else { 0 },
    decreases before.len(),
{
    if before.len() > 0 {
        let n = before.len() - 1;
        assert forall|i: int| 0 <= i < n && i != k implies (#[trigger] after.drop_last()[i]).statements@.len() == before.drop_last()[i].statements@.len() by {
            assert(after.drop_last()[i] == after[i]);
            assert(before.drop_last()[i] == before[i]);
        }
        if 0 <= k < n {
            assert(after.drop_last()[k] == after[k]);
            assert(before.drop_last()[k] == before[k]);
        }
        lemma_statement_total(before.drop_last(), after.drop_last(), k, d);
        if k != n {
            assert(after[n].statements@.len() == before[n].statements@.len());
        }
    }
}

/// Appending a block adds its statements.
pub proof fn lemma_statement_total_push(before: Seq<BasicBlock>, b: BasicBlock)
    ensures
        statement_total(before.push(b)) == statement_total(before) + b.statements@.len(),
{
    assert(before.push(b).drop_last() =~= before);
}

/// Blocks that keep their successors and their lists of predecessors keep every
/// edge listed.
pub proof fn lemma_links_same(before: Seq<BasicBlock>, after: Seq<BasicBlock>)
    requires
        preds_listed(before),
        after.len() == before.len(),
        forall|i: int| 0 <= i < before.len() ==> #[trigger] before[i].links_below(before.len()),
        forall|i: int|
            0 <= i < before.len() ==> succ_targets((#[trigger] after[i]).successors) == succ_targets(before[i].successors)
                && after[i].predecessors@ == before[i].predecessors@,
    ensures
        preds_listed(after),
{
    assert forall|a: int, j: int|
        0 <= a < after.len() && 0 <= j < succ_targets(after[a].successors).len() implies after[#[trigger] succ_targets(
            after[a].successors,
        )[j] as int].predecessors@.contains(a as usize) by {
        assert(succ_targets(after[a].successors) == succ_targets(before[a].successors));
        let t = succ_targets(before[a].successors)[j];
        assert(before[a].links_below(before.len()));
        assert(t < before.len());
        assert(before[t as int].predecessors@.contains(a as usize));
        assert(after[t as int].predecessors@ == before[t as int].predecessors@);
    }
}

pub open spec fn succ_targets(o: Option<Successor>) -> Seq<usize> {
    match o {
        Some(Successor::Unconditional { to }) => seq![to],
        Some(Successor::Conditional { to_then, to_else, .. }) => seq![to_then, to_else],
        None => Seq::empty(),
    }
}

impl Successor {
    pub fn duplicate(&self) -> (r: Successor)
        ensures
            r@ == self@,
    {
        match self {
            Successor::Unconditional { to } => Successor::Unconditional { to: *to },
            Successor::Conditional { num_type, condition, to_then, to_else } => {
                Successor::Conditional {
                    num_type: *num_type,
                    condition: condition.duplicate(),
                    to_then: *to_then,
                    to_else: *to_else,
                }
            },
        }
    }
}

/// The targets of a block's successor, in order.
pub fn targets_of(o: &Option<Successor>) -> (r: Vec<usize>)
    ensures
        r@ == succ_targets(*o),
{
    match o {
        Some(Successor::Unconditional { to }) => {
            let mut v = Vec::new();
            v.push(*to);
            proof {
                assert(v@ =~= seq![*to]);
            }
            v
        },
        Some(Successor::Conditional { to_then, to_else, .. }) => {
            let mut v = Vec::new();
            v.push(*to_then);
            v.push(*to_else);
            proof {
                assert(v@ =~= seq![*to_then, *to_else]);
            }
            v
        },
        None => {
            let v = Vec::new();
            proof {
                assert(v@ =~= Seq::<usize>::empty());
            }
            v
        },
    }
}

/// The position of an instruction in a block: among the φ-functions or the statements.
#[derive(Clone, Copy, Debug, PartialEq, Eq, Structural)]
pub struct LineInstruction {
    pub is_phi: bool,
    pub line: usize,
}

/// Where a variable is read.
#[derive(Clone, Copy, Debug, PartialEq, Eq, Structural)]
pub enum Use {
    /// Block and line in the block
    InInstruction(usize, LineInstruction),
    /// Block whose successor is conditional successor
    InCondition(usize),
}

/// Whether line `a` comes strictly before line `b` in the order in which sets
/// keep lines: the lines of statements first, then those of φ-functions, and by
/// position within each kind.
pub open spec fn line_precedes(a: LineInstruction, b: LineInstruction) -> bool {
    if a.is_phi != b.is_phi {
        !a.is_phi
    } else {
        a.line < b.line
    }
}

/// Whether use `a` comes strictly before use `b`: every use in an instruction
/// before every use in a branch condition, the former by block and then by line,
/// the latter by block.
pub open spec fn use_precedes(a: Use, b: Use) -> bool {
    match (a, b) {
        (Use::InInstruction(b1, l1), Use::InInstruction(b2, l2)) => if b1 != b2 {
            b1 < b2
        } else {
            line_precedes(l1, l2)
        },
        (Use::InInstruction(_, _), Use::InCondition(_)) => true,
        (Use::InCondition(_), Use::InInstruction(_, _)) => false,
        (Use::InCondition(b1), Use::InCondition(b2)) => b1 < b2,
    }
}

pub fn line_before(a: &LineInstruction, b: &LineInstruction) -> (r: bool)
    ensures
        r == line_precedes(*a, *b),
{
    if a.is_phi != b.is_phi {
        !a.is_phi
    } else {
        a.line < b.line
    }
}

impl Ranked for Use {
    fn same(&self, other: &Self) -> (r: bool) {
        match (self, other) {
            (Use::InInstruction(b1, l1), Use::InInstruction(b2, l2)) => *b1 == *b2 && l1.is_phi
                == l2.is_phi && l1.line == l2.line,
            (Use::InCondition(b1), Use::InCondition(b2)) => *b1 == *b2,
            _ => false,
        }
    }

    open spec fn precedes(&self, other: &Self) -> bool {
        use_precedes(*self, *other)
    }

    fn before(&self, other: &Self) -> (r: bool) {
        match (self, other) {
            (Use::InInstruction(b1, l1), Use::InInstruction(b2, l2)) => {
                if *b1 != *b2 {
                    *b1 < *b2
                } else {
                    line_before(l1, l2)
                }
            },
            (Use::InInstruction(_, _), Use::InCondition(_)) => true,
            (Use::InCondition(_), Use::InInstruction(_, _)) => false,
            (Use::InCondition(b1), Use::InCondition(b2)) => *b1 < *b2,
        }
    }
    proof fn lemma_precedes_order(a: Self, b: Self, c: Self) {
    }
}

/// The block that a use lies in.
pub open spec fn use_block(u: Use) -> usize {
    match u {
        Use::InInstruction(b, _) => b,
        Use::InCondition(b) => b,
    }
}

pub struct BasicBlock {
    pub id: usize,
    pub phi_functions: Vec<PhiFunction>,
    pub statements: Vec<Statement>,
    pub predecessors: Vec<usize>,
    pub successors: Option<Successor>,
    ///Whether a variable is declared as a phi function and its position in the list of phi
    ///functions or statements accordingly
    pub declarations: NameMap<LineInstruction>,
    ///Set with the variables that are used in phi functions in the successors of the block
    pub phi_uses: NameMap<()>,
    ///Stack with the variables that are live in at the beginning of the block
    pub live_in: Vec<String>,
    ///Stack with the variables that are live out at the end of the block
    pub live_out: Vec<String>,
}

pub open spec fn names_view(s: Seq<String>) -> Seq<Seq<char>> {
    s.map_values(|x: String| x@)
}

/// Possibilities in which the variable `t` is renamed to `r`.
pub open spec fn rename_poss(s: Seq<(Seq<char>, usize)>, t: Seq<char>, r: Seq<char>) -> Seq<
    (Seq<char>, usize),
> {
    s.map_values(|p: (Seq<char>, usize)| if p.0 == t { (r, p.1) } else { p })
}

/// Operands in which the variable `t` is renamed to `r`.
pub open spec fn rename_exprs(s: Seq<SpecExpression>, t: Seq<char>, r: Seq<char>) -> Seq<SpecExpression> {
    s.map_values(|e: SpecExpression| rename_expr(e, single_renaming(t, r)))
}

/// Copies of operands in which `target` is renamed to `replacement`.
pub fn renamed_operands(v: &Vec<Expression>, target: &str, replacement: &str) -> (r: Vec<Expression>)
    ensures
        exprs_view(r@) == rename_exprs(exprs_view(v@), target@, replacement@),
{
    let mut r: Vec<Expression> = Vec::new();
    let mut i: usize = 0;
    while i < v.len()
        invariant
            i <= v@.len(),
            exprs_view(r@) == rename_exprs(exprs_view(v@.take(i as int)), target@, replacement@),
        decreases v@.len() - i,
    {
        let mut e = v[i].duplicate();
        replace_variable_in_expression(&mut e, target, replacement);
        let ghost r0 = r@;
        r.push(e);
        proof {
            assert(v@.take(i + 1) =~= v@.take(i as int).push(v@[i as int]));
            assert(exprs_view(r@) =~= exprs_view(r0).push(e@));
            assert(exprs_view(v@.take(i as int).push(v@[i as int])) =~= exprs_view(v@.take(i as int)).push(v@[i as int]@));
            assert(rename_exprs(exprs_view(v@.take(i + 1)), target@, replacement@) =~= rename_exprs(exprs_view(v@.take(i as int)), target@, replacement@).push(e@));
        }
        i = i + 1;
    }
    proof {
        assert(v@.take(v@.len() as int) =~= v@);
    }
    r
}

/// Copies of possibilities in which `target` is renamed to `replacement`.
pub fn renamed_possibilities(v: &Vec<PhiPossibility>, target: &str, replacement: &str) -> (r: Vec<PhiPossibility>)
    ensures
        poss_view(r@) == rename_poss(poss_view(v@), target@, replacement@),
        r@.len() == v@.len(),
{
    let mut r: Vec<PhiPossibility> = Vec::new();
    let mut i: usize = 0;
    while i < v.len()
        invariant
            i <= v@.len(),
            r@.len() == i,
            poss_view(r@) == rename_poss(poss_view(v@.take(i as int)), target@, replacement@),
        decreases v@.len() - i,
    {
        let name = if same_text(&v[i].variable, target) { owned(replacement) } else { v[i].variable.clone() };
        let p = PhiPossibility { variable: name, block: v[i].block };
        let ghost r0 = r@;
        r.push(p);
        proof {
            assert(v@.take(i + 1) =~= v@.take(i as int).push(v@[i as int]));
            assert(poss_view(r@) =~= poss_view(r0).push(p@));
            assert(poss_view(v@.take(i as int).push(v@[i as int])) =~= poss_view(v@.take(i as int)).push(v@[i as int]@));
            assert(rename_poss(poss_view(v@.take(i + 1)), target@, replacement@) =~= rename_poss(poss_view(v@.take(i as int)), target@, replacement@).push(p@));
        }
        i = i + 1;
    }
    proof {
        assert(v@.take(v@.len() as int) =~= v@);
    }
    r
}

/// Two blocks hold, position by position, instructions with the same outputs.
pub open spec fn same_outputs(a: BasicBlock, b: BasicBlock) -> bool {
    &&& a.phi_functions@.len() == b.phi_functions@.len()
    &&& a.statements@.len() == b.statements@.len()
    &&& forall|p: int| 0 <= p < a.phi_functions@.len() ==> (#[trigger] a.phi_functions@[p]).output@ == b.phi_functions@[p].output@
    &&& forall|q: int| 0 <= q < a.statements@.len() ==> opt_name((#[trigger] a.statements@[q]).output) == opt_name(b.statements@[q].output)
}

impl BasicBlock {
    /// The block's own maps are well formed.
    pub open spec fn wf(&self) -> bool {
        &&& self.declarations.wf()
        &&& self.phi_uses.wf()
    }

    /// Every block that this block mentions is below `n`.
    pub open spec fn links_below(&self, n: nat) -> bool {
        &&& forall|j: int| 0 <= j < self.predecessors@.len() ==> #[trigger] self.predecessors@[j] < n
        &&& forall|j: int| 0 <= j < succ_targets(self.successors).len() ==> #[trigger] succ_targets(self.successors)[j] < n
        &&& forall|p: int, q: int|
            0 <= p < self.phi_functions@.len() && 0 <= q < self.phi_functions@[p].possibilities@.len()
                ==> #[trigger] self.phi_functions@[p].possibilities@[q].block < n
    }

    pub fn new(id: usize) -> (b: BasicBlock)
        ensures
            b.id == id,
            b.wf(),
            b.phi_functions@.len() == 0,
            b.statements@.len() == 0,
            b.predecessors@.len() == 0,
            b.successors.is_none(),
            b.declarations@ == Map::<Seq<char>, LineInstruction>::empty(),
            b.phi_uses@ == Map::<Seq<char>, ()>::empty(),
            b.live_in@.len() == 0,
            b.live_out@.len() == 0,
            b.declarations.entries@.len() == 0,
            b.phi_uses.entries@.len() == 0,
            b.links_below(0),
    {
        BasicBlock {
            id,
            phi_functions: Vec::new(),
            statements: Vec::new(),
            predecessors: Vec::new(),
            successors: None,
            declarations: NameMap::new(),
            phi_uses: NameMap::new(),
            live_in: Vec::new(),
            live_out: Vec::new(),
        }
    }

    /// Returns the position of the new PhiFunction
    pub fn add_phi_function(&mut self, phi: PhiFunction) -> (line: LineInstruction)
        requires
            old(self).wf(),
        ensures
            final(self).wf(),
            line == (LineInstruction { is_phi: true, line: old(self).phi_functions@.len() as usize }),
            final(self).phi_functions@ == old(self).phi_functions@.push(phi),
            final(self).declarations@ == old(self).declarations@.insert(phi.output@, line),
            final(self).id == old(self).id,
            final(self).statements@ == old(self).statements@,
            final(self).predecessors@ == old(self).predecessors@,
            final(self).successors == old(self).successors,
            final(self).phi_uses == old(self).phi_uses,
            final(self).live_in@ == old(self).live_in@,
            final(self).live_out@ == old(self).live_out@,
    {
        let line = LineInstruction { is_phi: true, line: self.phi_functions.len() };
        self.declarations.insert(phi.output.clone(), line);
        self.phi_functions.push(phi);
        line
    }

    /// Returns the position of the new Statement
    pub fn add_instruction(&mut self, stmt: Statement) -> (line: LineInstruction)
        requires
            old(self).wf(),
        ensures
            final(self).wf(),
            line == (LineInstruction { is_phi: false, line: old(self).statements@.len() as usize }),
            final(self).statements@ == old(self).statements@.push(stmt),
            final(self).declarations@ == match stmt.output {
                Some(o) => old(self).declarations@.insert(o@, line),
                None => old(self).declarations@,
            },
            final(self).id == old(self).id,
            final(self).phi_functions@ == old(self).phi_functions@,
            final(self).predecessors@ == old(self).predecessors@,
            final(self).successors == old(self).successors,
            final(self).phi_uses == old(self).phi_uses,
            final(self).live_in@ == old(self).live_in@,
            final(self).live_out@ == old(self).live_out@,
    {
        let line = LineInstruction { is_phi: false, line: self.statements.len() };
        if let Some(output) = &stmt.output {
            self.declarations.insert(output.clone(), line);
        }
        self.statements.push(stmt);
        line
    }

    /// Renames `target` to `replacement` in the operands of the instruction at `line`.
    /// Returns the declared variable in the instruction (if such variable exists).
    /// A line that the block does not hold changes nothing and declares nothing.
    pub fn change_instruction_operands(&mut self, line: &LineInstruction, target: &str, replacement: &str) -> (r: Option<String>)
        ensures
            final(self).id == old(self).id,
            final(self).predecessors@ == old(self).predecessors@,
            final(self).successors == old(self).successors,
            final(self).declarations == old(self).declarations,
            final(self).phi_uses == old(self).phi_uses,
            final(self).live_in@ == old(self).live_in@,
            final(self).live_out@ == old(self).live_out@,
            final(self).phi_functions@.len() == old(self).phi_functions@.len(),
            final(self).statements@.len() == old(self).statements@.len(),
            same_outputs(*final(self), *old(self)),
            line.is_phi && line.line < old(self).phi_functions@.len() ==> {
                &&& phis_view(final(self).phi_functions@) == phis_view(old(self).phi_functions@).update(
                    line.line as int,
                    SpecPhi {
                        output: old(self).phi_functions@[line.line as int].output@,
                        possibilities: rename_poss(poss_view(old(self).phi_functions@[line.line as int].possibilities@), target@, replacement@),
                    },
                )
                &&& forall|k: int| 0 <= k < old(self).phi_functions@.len() ==>
                    (#[trigger] final(self).phi_functions@[k]).possibilities@.len() == old(self).phi_functions@[k].possibilities@.len()
                    && final(self).phi_functions@[k].possibilities@.len() == old(self).phi_functions@[k].possibilities@.len()
                    && forall|q: int| 0 <= q < old(self).phi_functions@[k].possibilities@.len() ==>
                        #[trigger] final(self).phi_functions@[k].possibilities@[q].block == old(self).phi_functions@[k].possibilities@[q].block
                &&& stmts_view(final(self).statements@) == stmts_view(old(self).statements@)
                &&& opt_name(r) == Some(old(self).phi_functions@[line.line as int].output@)
            },
            !line.is_phi && line.line < old(self).statements@.len() ==> {
                &&& stmts_view(final(self).statements@) == stmts_view(old(self).statements@).update(
                    line.line as int,
                    SpecStatement {
                        num_type: old(self).statements@[line.line as int].num_type,
                        output: opt_name(old(self).statements@[line.line as int].output),
                        operator: old(self).statements@[line.line as int].value.operator,
                        operands: rename_exprs(exprs_view(old(self).statements@[line.line as int].value.operands@), target@, replacement@),
                    },
                )
                &&& final(self).phi_functions@ == old(self).phi_functions@
                &&& opt_name(r) == opt_name(old(self).statements@[line.line as int].output)
            },
            !(line.is_phi && line.line < old(self).phi_functions@.len()) && !(!line.is_phi && line.line < old(self).statements@.len()) ==> {
                &&& r.is_none()
                &&& final(self).phi_functions@ == old(self).phi_functions@
                &&& final(self).statements@ == old(self).statements@
            },
    {
        if line.is_phi {
            if line.line < self.phi_functions.len() {
                let output = self.phi_functions[line.line].output.clone();
                let poss = renamed_possibilities(&self.phi_functions[line.line].possibilities, target, replacement);
                let phi = PhiFunction { output, possibilities: poss };
                let ghost before = self.phi_functions@;
                self.phi_functions.set(line.line, phi);
                proof {
                    assert(phis_view(self.phi_functions@) =~= phis_view(before).update(line.line as int, phi@));
                    assert forall|p: int| 0 <= p < before.len() implies
                        (#[trigger] self.phi_functions@[p]).output@ == before[p].output@ by {
                        if p != line.line {
                            assert(self.phi_functions@[p] == before[p]);
                        }
                    }
                    assert forall|k: int| 0 <= k < before.len() implies
                        (#[trigger] self.phi_functions@[k]).possibilities@.len() == before[k].possibilities@.len()
                        && forall|q: int| 0 <= q < before[k].possibilities@.len() ==>
                            #[trigger] self.phi_functions@[k].possibilities@[q].block == before[k].possibilities@[q].block by {
                        if k == line.line {
                            assert forall|q: int| 0 <= q < before[k].possibilities@.len() implies
                                #[trigger] self.phi_functions@[k].possibilities@[q].block == before[k].possibilities@[q].block by {
                                assert(poss_view(self.phi_functions@[k].possibilities@)[q] == rename_poss(poss_view(before[k].possibilities@), target@, replacement@)[q]);
                            }
                        }
                    }
                }
                Some(self.phi_functions[line.line].output.clone())
            } else {
                None
            }
        } else {
            if line.line < self.statements.len() {
                let ops = renamed_operands(&self.statements[line.line].value.operands, target, replacement);
                let stmt = Statement {
                    num_type: self.statements[line.line].num_type,
                    output: duplicate_opt_name(&self.statements[line.line].output),
                    value: Value { operator: self.statements[line.line].value.operator, operands: ops },
                };
                let out = duplicate_opt_name(&stmt.output);
                let ghost before = self.statements@;
                self.statements.set(line.line, stmt);
                proof {
                    assert(stmts_view(self.statements@) =~= stmts_view(before).update(line.line as int, stmt@));
                    assert forall|q: int| 0 <= q < before.len() implies
                        opt_name((#[trigger] self.statements@[q]).output) == opt_name(before[q].output) by {
                        if q != line.line {
                            assert(self.statements@[q] == before[q]);
                        }
                    }
                }
                out
            } else {
                None
            }
        }
    }

    /// Renames `target` to `replacement` in the condition of a conditional successor.
    /// A block without a conditional successor is left unchanged.
    pub fn change_condition(&mut self, target: &str, replacement: &str)
        ensures
            final(self).id == old(self).id,
            final(self).phi_functions@ == old(self).phi_functions@,
            final(self).statements@ == old(self).statements@,
            final(self).predecessors@ == old(self).predecessors@,
            final(self).declarations == old(self).declarations,
            final(self).phi_uses == old(self).phi_uses,
            final(self).live_in@ == old(self).live_in@,
            final(self).live_out@ == old(self).live_out@,
            succ_targets(final(self).successors) == succ_targets(old(self).successors),
            opt_succ(final(self).successors) == match opt_succ(old(self).successors) {
                Some(SpecSuccessor::Conditional { num_type, condition, to_then, to_else }) => Some(SpecSuccessor::Conditional {
                    num_type,
                    condition: rename_expr(condition, single_renaming(target@, replacement@)),
                    to_then,
                    to_else,
                }),
                other => other,
            },
    {
        if let Some(Successor::Conditional { num_type, condition, to_then, to_else }) = &self.successors {
            let mut c = condition.duplicate();
            replace_variable_in_expression(&mut c, target, replacement);
            let s = Successor::Conditional { num_type: *num_type, condition: c, to_then: *to_then, to_else: *to_else };
            self.successors = Some(s);
        }
    }

    pub fn add_predecessor(&mut self, pred: usize)
        ensures
            final(self).predecessors@ == old(self).predecessors@.push(pred),
            final(self).id == old(self).id,
            final(self).phi_functions@ == old(self).phi_functions@,
            final(self).statements@ == old(self).statements@,
            final(self).successors == old(self).successors,
            final(self).declarations == old(self).declarations,
            final(self).phi_uses == old(self).phi_uses,
            final(self).live_in@ == old(self).live_in@,
            final(self).live_out@ == old(self).live_out@,
    {
        self.predecessors.push(pred);
    }

    pub fn add_succesor(&mut self, suc: Successor)
        ensures
            final(self).successors == Some(suc),
            final(self).id == old(self).id,
            final(self).phi_functions@ == old(self).phi_functions@,
            final(self).statements@ == old(self).statements@,
            final(self).predecessors@ == old(self).predecessors@,
            final(self).declarations == old(self).declarations,
            final(self).phi_uses == old(self).phi_uses,
            final(self).live_in@ == old(self).live_in@,
            final(self).live_out@ == old(self).live_out@,
    {
        self.successors = Some(suc);
    }

    pub fn add_phi_use(&mut self, var: &str)
        requires
            old(self).wf(),
        ensures
            final(self).wf(),
            final(self).phi_uses@ == old(self).phi_uses@.insert(var@, ()),
            final(self).id == old(self).id,
            final(self).phi_functions@ == old(self).phi_functions@,
            final(self).statements@ == old(self).statements@,
            final(self).predecessors@ == old(self).predecessors@,
            final(self).successors == old(self).successors,
            final(self).declarations == old(self).declarations,
            final(self).live_in@ == old(self).live_in@,
            final(self).live_out@ == old(self).live_out@,
    {
        self.phi_uses.insert(owned(var), ());
    }

    pub fn check_phi_use(&self, var: &str) -> (r: bool)
        requires
            self.wf(),
        ensures
            r == self.phi_uses@.contains_key(var@),
    {
        self.phi_uses.contains(var)
    }

    pub fn add_to_live_in(&mut self, v: &str)
        ensures
            names_view(final(self).live_in@) == names_view(old(self).live_in@).push(v@),
            final(self).live_in@.len() == old(self).live_in@.len() + 1,
            final(self).live_out@ == old(self).live_out@,
            final(self).id == old(self).id,
            final(self).phi_functions@ == old(self).phi_functions@,
            final(self).statements@ == old(self).statements@,
            final(self).predecessors@ == old(self).predecessors@,
            final(self).successors == old(self).successors,
            final(self).declarations == old(self).declarations,
            final(self).phi_uses == old(self).phi_uses,
    {
        self.live_in.push(owned(v));
        proof {
            assert(names_view(self.live_in@) =~= names_view(old(self).live_in@).push(v@));
        }
    }

    pub fn top_live_in(&self) -> (r: Option<&String>)
        ensures
            match r {
                Some(s) => self.live_in@.len() > 0 && *s == self.live_in@.last(),
                None => self.live_in@.len() == 0,
            },
    {
        self.live_in.last()
    }

    pub fn add_to_live_out(&mut self, v: &str)
        ensures
            names_view(final(self).live_out@) == names_view(old(self).live_out@).push(v@),
            final(self).live_out@.len() == old(self).live_out@.len() + 1,
            final(self).live_in@ == old(self).live_in@,
            final(self).id == old(self).id,
            final(self).phi_functions@ == old(self).phi_functions@,
            final(self).statements@ == old(self).statements@,
            final(self).predecessors@ == old(self).predecessors@,
            final(self).successors == old(self).successors,
            final(self).declarations == old(self).declarations,
            final(self).phi_uses == old(self).phi_uses,
    {
        self.live_out.push(owned(v));
        proof {
            assert(names_view(self.live_out@) =~= names_view(old(self).live_out@).push(v@));
        }
    }

    pub fn top_live_out(&self) -> (r: Option<&String>)
        ensures
            match r {
                Some(s) => self.live_out@.len() > 0 && *s == self.live_out@.last(),
                None => self.live_out@.len() == 0,
            },
    {
        self.live_out.last()
    }
}

} // verus!

verus! {

/// The message of a second definition of a variable.
pub open spec fn defined_twice_message(var: Seq<char>) -> Seq<char> {
    "Variable '"@ + var + "' was defined twice"@
}

pub fn defined_twice(var: &str) -> (msg: String)
    ensures
        msg@ == defined_twice_message(var@),
{
    let mut s = String::new();
    push_text(&mut s, "Variable '");
    push_text(&mut s, var);
    push_text(&mut s, "' was defined twice");
    proof {
        assert(Seq::<char>::empty() + "Variable '"@ + var@ + "' was defined twice"@ =~= defined_twice_message(var@));
    }
    s
}

pub struct CFG {
    pub entry: usize,
    pub blocks: Vec<BasicBlock>,
    pub non_ssa_variables: usize,
    /// Key: Variable, Value: Block and line in that block where it is defined
    pub definitions: NameMap<(usize, LineInstruction)>,
    /// Key: Variable, Value: Set with all its uses
    pub def_use: NameMap<ItemSet<Use>>,
}

impl Default for CFG {
    /// The empty graph: no block, entry 0, no variable recorded.
    fn default() -> (cfg: CFG)
        ensures
            cfg.entry == 0,
            cfg.blocks@.len() == 0,
            cfg.non_ssa_variables == 0,
            cfg.definitions.wf(),
            cfg.def_use.wf(),
            cfg.definitions@ == Map::<Seq<char>, (usize, LineInstruction)>::empty(),
            cfg.def_use@ == Map::<Seq<char>, ItemSet<Use>>::empty(),
    {
        CFG { entry: 0, blocks: Vec::new(), non_ssa_variables: 0, definitions: NameMap::new(), def_use: NameMap::new() }
    }
}

impl CFG {
    pub open spec fn block_ok(&self, i: int) -> bool {
        &&& self.blocks@[i].id == i
        &&& self.blocks@[i].wf()
        &&& self.blocks@[i].links_below(self.blocks@.len())
    }

    pub open spec fn uses_ok(&self, k: Seq<char>) -> bool {
        &&& self.def_use@[k].wf()
        &&& forall|u: Use| #[trigger] self.def_use@[k]@.contains(u) ==> use_block(u) < self.blocks@.len()
    }

    /// The graph is well formed: block ids are positions, every block that is
    /// mentioned exists, every edge is listed among the predecessors of its
    /// target, and the maps are well formed.
    pub open spec fn wf(&self) -> bool {
        &&& self.entry < self.blocks@.len()
        &&& self.definitions.wf()
        &&& self.def_use.wf()
        &&& forall|i: int| 0 <= i < self.blocks@.len() ==> #[trigger] self.block_ok(i)
        &&& preds_listed(self.blocks@)
        &&& forall|k: Seq<char>| #[trigger] self.definitions@.contains_key(k) ==> self.definitions@[k].0 < self.blocks@.len()
        &&& forall|k: Seq<char>| #[trigger] self.def_use@.contains_key(k) ==> self.uses_ok(k)
    }

    /// The instruction at `l` in block `b` defines `k`.
    pub open spec fn defines_at(&self, k: Seq<char>, b: usize, l: LineInstruction) -> bool {
        &&& b < self.blocks@.len()
        &&& if l.is_phi {
            &&& l.line < self.blocks@[b as int].phi_functions@.len()
            &&& self.blocks@[b as int].phi_functions@[l.line as int].output@ == k
        } else {
            &&& l.line < self.blocks@[b as int].statements@.len()
            &&& opt_name(self.blocks@[b as int].statements@[l.line as int].output) == Some(k)
        }
    }

    /// Static single assignment: every recorded definition is an instruction that
    /// defines its variable, and every instruction that defines a variable is the
    /// one recorded for it, so that no variable is defined at two places.
    pub open spec fn ssa_ok(&self) -> bool {
        &&& forall|k: Seq<char>| #[trigger] self.definitions@.contains_key(k)
            ==> self.defines_at(k, self.definitions@[k].0, self.definitions@[k].1)
        &&& forall|k: Seq<char>, b: usize, l: LineInstruction| #[trigger] self.defines_at(k, b, l)
            ==> self.definitions@.contains_key(k) && self.definitions@[k] == (b, l)
    }

    /// Static single assignment survives changes that keep the recorded definitions
    /// and the outputs of the instructions of the old blocks, and add only empty blocks.
    pub proof fn lemma_ssa_kept(&self, before: CFG)
        requires
            before.ssa_ok(),
            self.definitions@ == before.definitions@,
            before.blocks@.len() <= self.blocks@.len(),
            forall|i: int| 0 <= i < before.blocks@.len() ==> same_outputs(#[trigger] self.blocks@[i], before.blocks@[i]),
            forall|i: int| before.blocks@.len() <= i < self.blocks@.len() ==> {
                &&& (#[trigger] self.blocks@[i]).phi_functions@.len() == 0
                &&& self.blocks@[i].statements@.len() == 0
            },
        ensures
            self.ssa_ok(),
    {
        assert forall|k: Seq<char>, b: usize, l: LineInstruction| #[trigger] self.defines_at(k, b, l)
            implies before.defines_at(k, b, l) by {
            if b < before.blocks@.len() {
                assert(same_outputs(self.blocks@[b as int], before.blocks@[b as int]));
            }
        }
        assert forall|k: Seq<char>| #[trigger] self.definitions@.contains_key(k)
            implies self.defines_at(k, self.definitions@[k].0, self.definitions@[k].1) by {
            let (b, l) = before.definitions@[k];
            assert(before.defines_at(k, b, l));
            assert(same_outputs(self.blocks@[b as int], before.blocks@[b as int]));
        }
    }

    /// Adding an instruction to a block, and recording its output there when the
    /// output was not defined before, keeps static single assignment.
    pub proof fn lemma_ssa_grown(&self, before: CFG, block: usize, new_def: Option<(Seq<char>, LineInstruction)>)
        requires
            before.ssa_ok(),
            block < before.blocks@.len(),
            self.blocks@.len() == before.blocks@.len(),
            forall|i: int| 0 <= i < before.blocks@.len() && i != block ==> same_outputs(#[trigger] self.blocks@[i], before.blocks@[i]),
            forall|k2: Seq<char>, l2: LineInstruction| #[trigger] self.defines_at(k2, block, l2) ==>
                new_def == Some((k2, l2)) || before.defines_at(k2, block, l2),
            forall|k2: Seq<char>, l2: LineInstruction| #[trigger] before.defines_at(k2, block, l2) ==>
                self.defines_at(k2, block, l2),
            match new_def {
                None => self.definitions@ == before.definitions@,
                Some((k, l)) => {
                    &&& !before.definitions@.contains_key(k)
                    &&& self.definitions@ == before.definitions@.insert(k, (block, l))
                    &&& self.defines_at(k, block, l)
                },
            },
        ensures
            self.ssa_ok(),
    {
        assert forall|k2: Seq<char>, b: usize, l2: LineInstruction| #[trigger] self.defines_at(k2, b, l2)
            implies self.definitions@.contains_key(k2) && self.definitions@[k2] == (b, l2) by {
            if b != block {
                assert(same_outputs(self.blocks@[b as int], before.blocks@[b as int]));
                assert(before.defines_at(k2, b, l2));
            } else if new_def != Some((k2, l2)) {
                assert(before.defines_at(k2, b, l2));
            }
        }
        assert forall|k2: Seq<char>| #[trigger] self.definitions@.contains_key(k2)
            implies self.defines_at(k2, self.definitions@[k2].0, self.definitions@[k2].1) by {
            let fresh = match new_def {
                Some((k, _)) => k == k2,
                None => false,
            };
            if !fresh {
                let (b, l2) = before.definitions@[k2];
                assert(before.defines_at(k2, b, l2));
                if b != block {
                    assert(same_outputs(self.blocks@[b as int], before.blocks@[b as int]));
                }
            }
        }
    }

    /// In SSA form no variable is assigned twice: two instructions that define the
    /// same variable are the same instruction.
    pub proof fn lemma_single_assignment(&self, k: Seq<char>, b1: usize, l1: LineInstruction, b2: usize, l2: LineInstruction)
        requires
            self.ssa_ok(),
            self.defines_at(k, b1, l1),
            self.defines_at(k, b2, l2),
        ensures
            b1 == b2,
            l1 == l2,
    {
    }

    pub fn new(entry: usize) -> (cfg: CFG)
        ensures
            cfg.entry == entry,
            cfg.blocks@.len() == 1,
            cfg.blocks@[0].id == entry,
            cfg.blocks@[0].phi_functions@.len() == 0,
            cfg.blocks@[0].statements@.len() == 0,
            cfg.blocks@[0].predecessors@.len() == 0,
            cfg.blocks@[0].successors.is_none(),
            cfg.blocks@[0].live_in@.len() == 0,
            cfg.blocks@[0].live_out@.len() == 0,
            cfg.blocks@[0].declarations@ == Map::<Seq<char>, LineInstruction>::empty(),
            cfg.blocks@[0].phi_uses@ == Map::<Seq<char>, ()>::empty(),
            cfg.blocks@[0].declarations.entries@.len() == 0,
            cfg.blocks@[0].phi_uses.entries@.len() == 0,
            cfg.definitions.entries@.len() == 0,
            cfg.def_use.entries@.len() == 0,
            cfg.non_ssa_variables == 0,
            cfg.definitions@ == Map::<Seq<char>, (usize, LineInstruction)>::empty(),
            cfg.def_use@ == Map::<Seq<char>, ItemSet<Use>>::empty(),
            entry == 0 ==> cfg.wf(),
            cfg.ssa_ok(),
    {
        let mut blocks = Vec::new();
        blocks.push(BasicBlock::new(entry));
        let cfg = CFG { entry, blocks, non_ssa_variables: 0, definitions: NameMap::new(), def_use: NameMap::new() };
        proof {
            if entry == 0 {
                assert(cfg.block_ok(0));
            }
        }
        cfg
    }

    pub fn create_new_block(&mut self) -> (id: usize)
        requires
            old(self).wf(),
            old(self).blocks@.len() < usize::MAX,
        ensures
            final(self).wf(),
            statement_total(final(self).blocks@) == statement_total(old(self).blocks@),
            id == old(self).blocks@.len(),
            final(self).blocks@.len() == old(self).blocks@.len() + 1,
            forall|i: int| 0 <= i < old(self).blocks@.len() ==> #[trigger] final(self).blocks@[i] == old(self).blocks@[i],
            final(self).blocks@[id as int].phi_functions@.len() == 0,
            final(self).blocks@[id as int].statements@.len() == 0,
            final(self).blocks@[id as int].predecessors@.len() == 0,
            final(self).blocks@[id as int].successors.is_none(),
            final(self).blocks@[id as int].live_in@.len() == 0,
            final(self).blocks@[id as int].live_out@.len() == 0,
            final(self).blocks@[id as int].declarations@ == Map::<Seq<char>, LineInstruction>::empty(),
            final(self).blocks@[id as int].phi_uses@ == Map::<Seq<char>, ()>::empty(),
            final(self).blocks@[id as int].declarations.entries@.len() == 0,
            final(self).blocks@[id as int].phi_uses.entries@.len() == 0,
            final(self).entry == old(self).entry,
            final(self).non_ssa_variables == old(self).non_ssa_variables,
            final(self).definitions == old(self).definitions,
            final(self).def_use == old(self).def_use,
            old(self).ssa_ok() ==> final(self).ssa_ok(),
    {
        let id = self.blocks.len();
        let new_block = BasicBlock::new(id);
        let ghost nb = new_block;
        self.blocks.push(new_block);
        proof {
            lemma_statement_total_push(old(self).blocks@, nb);
            assert(self.blocks@ == old(self).blocks@.push(nb));
        }
        proof {
            assert forall|a: int, j: int|
                0 <= a < self.blocks@.len() && 0 <= j < succ_targets(self.blocks@[a].successors).len() implies self.blocks@[#[trigger] succ_targets(
                    self.blocks@[a].successors,
                )[j] as int].predecessors@.contains(a as usize) by {
                assert(a < id);
                assert(old(self).block_ok(a));
                assert(self.blocks@[a] == old(self).blocks@[a]);
                let t = succ_targets(old(self).blocks@[a].successors)[j];
                assert(t < id);
                assert(self.blocks@[t as int] == old(self).blocks@[t as int]);
            }
        }
        proof {
            assert forall|i: int| 0 <= i < self.blocks@.len() implies #[trigger] self.block_ok(i) by {
                if i < id {
                    assert(old(self).block_ok(i));
                }
            }
            assert forall|k: Seq<char>| #[trigger] self.def_use@.contains_key(k) implies self.uses_ok(k) by {
                assert(old(self).uses_ok(k));
            }
            if old(self).ssa_ok() {
                self.lemma_ssa_kept(*old(self));
            }
        }
        id
    }

    pub fn check_empty_block(&self, block: usize) -> (r: bool)
        requires
            block < self.blocks@.len(),
        ensures
            r == (self.blocks@[block as int].statements@.len() == 0),
    {
        self.blocks[block].statements.len() == 0
    }

    pub fn predecessors(&self, block: usize) -> (r: &Vec<usize>)
        requires
            block < self.blocks@.len(),
        ensures
            *r == self.blocks@[block as int].predecessors,
    {
        &self.blocks[block].predecessors
    }

    pub fn check_existing_successor(&self, block: usize) -> (r: bool)
        requires
            block < self.blocks@.len(),
        ensures
            r == self.blocks@[block as int].successors.is_some(),
    {
        self.blocks[block].successors.is_some()
    }

    pub fn get_entry(&self) -> (r: usize)
        ensures
            r == self.entry,
    {
        self.entry
    }

    /// Links `pred` to `suc`, unless `pred` already has a successor.
    pub fn add_uncond_link(&mut self, pred: usize, suc: usize)
        requires
            old(self).wf(),
            pred < old(self).blocks@.len(),
            suc < old(self).blocks@.len(),
        ensures
            final(self).wf(),
            statement_total(final(self).blocks@) == statement_total(old(self).blocks@),
            final(self).blocks@.len() == old(self).blocks@.len(),
            final(self).entry == old(self).entry,
            final(self).non_ssa_variables == old(self).non_ssa_variables,
            final(self).definitions == old(self).definitions,
            final(self).def_use == old(self).def_use,
            old(self).blocks@[pred as int].successors.is_some() ==> final(self).blocks@ == old(self).blocks@,
            old(self).blocks@[pred as int].successors.is_none() ==> {
                &&& opt_succ(final(self).blocks@[pred as int].successors) == Some(SpecSuccessor::Unconditional { to: suc })
                &&& final(self).blocks@[suc as int].predecessors@ == old(self).blocks@[suc as int].predecessors@.push(pred)
                &&& pred != suc ==> final(self).blocks@[pred as int].predecessors@ == old(self).blocks@[pred as int].predecessors@
                &&& pred != suc ==> final(self).blocks@[suc as int].successors == old(self).blocks@[suc as int].successors
                &&& forall|i: int| 0 <= i < old(self).blocks@.len() && i != pred && i != suc ==> #[trigger] final(self).blocks@[i] == old(self).blocks@[i]
            },
            forall|i: int| 0 <= i < old(self).blocks@.len() ==> {
                &&& (#[trigger] final(self).blocks@[i]).phi_functions@ == old(self).blocks@[i].phi_functions@
                &&& final(self).blocks@[i].statements@ == old(self).blocks@[i].statements@
                &&& final(self).blocks@[i].declarations == old(self).blocks@[i].declarations
                &&& final(self).blocks@[i].phi_uses == old(self).blocks@[i].phi_uses
                &&& final(self).blocks@[i].live_in@ == old(self).blocks@[i].live_in@
                &&& final(self).blocks@[i].live_out@ == old(self).blocks@[i].live_out@
            },
            old(self).ssa_ok() ==> final(self).ssa_ok(),
    {
        //do not overwrite existing successors
        if !self.check_existing_successor(pred) {
            self.blocks[pred].add_succesor(Successor::Unconditional { to: suc });
            self.blocks[suc].add_predecessor(pred);
            proof {
                let n = self.blocks@.len();
                assert forall|a: int, j: int|
                    0 <= a < n && 0 <= j < succ_targets(self.blocks@[a].successors).len() implies self.blocks@[#[trigger] succ_targets(
                        self.blocks@[a].successors,
                    )[j] as int].predecessors@.contains(a as usize) by {
                    let t = succ_targets(self.blocks@[a].successors)[j];
                    assert(old(self).block_ok(a));
                    if a == pred {
                        assert(t == suc);
                        assert(self.blocks@[suc as int].predecessors@ == old(self).blocks@[suc as int].predecessors@.push(pred));
                        assert(self.blocks@[suc as int].predecessors@[old(self).blocks@[suc as int].predecessors@.len() as int] == pred);
                    } else {
                        assert(succ_targets(self.blocks@[a].successors) == succ_targets(old(self).blocks@[a].successors));
                        assert(t < n);
                        assert(old(self).blocks@[t as int].predecessors@.contains(a as usize));
                        let k = choose|k: int| 0 <= k < old(self).blocks@[t as int].predecessors@.len() && old(self).blocks@[t as int].predecessors@[k] == a as usize;
                        if t == suc {
                            assert(self.blocks@[t as int].predecessors@[k] == a as usize);
                        } else {
                            assert(self.blocks@[t as int].predecessors@ == old(self).blocks@[t as int].predecessors@);
                        }
                    }
                }
                assert forall|i: int| 0 <= i < n implies #[trigger] self.blocks@[i].links_below(n) by {
                    assert(old(self).block_ok(i));
                    let b = self.blocks@[i];
                    let ob = old(self).blocks@[i];
                    assert forall|j: int| 0 <= j < b.predecessors@.len() implies #[trigger] b.predecessors@[j] < n by {
                        if j < ob.predecessors@.len() {
                            assert(b.predecessors@[j] == ob.predecessors@[j] || b.predecessors@[j] == pred);
                        }
                    }
                }
                self.lemma_wf_after_links(*old(self));
            }
        }
        proof {
            lemma_statement_total(old(self).blocks@, self.blocks@, -1, 0);
            if old(self).ssa_ok() {
                assert forall|i: int| 0 <= i < old(self).blocks@.len() implies
                    same_outputs(#[trigger] self.blocks@[i], old(self).blocks@[i]) by {}
                self.lemma_ssa_kept(*old(self));
            }
        }
    }

    /// Links `pred` conditionally to `to_then` and `to_else`, unless `pred` already has a successor.
    pub fn add_cond_link(&mut self, pred: usize, num_type: NumericType, condition: Expression, to_then: usize, to_else: usize)
        requires
            old(self).wf(),
            pred < old(self).blocks@.len(),
            to_then < old(self).blocks@.len(),
            to_else < old(self).blocks@.len(),
        ensures
            final(self).wf(),
            statement_total(final(self).blocks@) == statement_total(old(self).blocks@),
            final(self).blocks@.len() == old(self).blocks@.len(),
            final(self).entry == old(self).entry,
            final(self).non_ssa_variables == old(self).non_ssa_variables,
            final(self).definitions == old(self).definitions,
            final(self).def_use == old(self).def_use,
            old(self).blocks@[pred as int].successors.is_some() ==> final(self).blocks@ == old(self).blocks@,
            forall|i: int| 0 <= i < old(self).blocks@.len() && i != pred ==> #[trigger] final(self).blocks@[i].successors == old(
                self,
            ).blocks@[i].successors,
            old(self).blocks@[pred as int].successors.is_none() ==> {
                &&& opt_succ(final(self).blocks@[pred as int].successors) == Some(SpecSuccessor::Conditional {
                    num_type,
                    condition: condition@,
                    to_then,
                    to_else,
                })
                &&& to_then != to_else ==> final(self).blocks@[to_then as int].predecessors@ == old(self).blocks@[to_then as int].predecessors@.push(pred)
                &&& to_then != to_else ==> final(self).blocks@[to_else as int].predecessors@ == old(self).blocks@[to_else as int].predecessors@.push(pred)
                &&& to_then == to_else ==> final(self).blocks@[to_then as int].predecessors@ == old(self).blocks@[to_then as int].predecessors@.push(pred).push(pred)
                &&& forall|i: int| 0 <= i < old(self).blocks@.len() && i != pred && i != to_then && i != to_else ==> #[trigger] final(self).blocks@[i] == old(self).blocks@[i]
            },
            forall|i: int| 0 <= i < old(self).blocks@.len() ==> {
                &&& (#[trigger] final(self).blocks@[i]).phi_functions@ == old(self).blocks@[i].phi_functions@
                &&& final(self).blocks@[i].statements@ == old(self).blocks@[i].statements@
                &&& final(self).blocks@[i].declarations == old(self).blocks@[i].declarations
                &&& final(self).blocks@[i].phi_uses == old(self).blocks@[i].phi_uses
                &&& final(self).blocks@[i].live_in@ == old(self).blocks@[i].live_in@
                &&& final(self).blocks@[i].live_out@ == old(self).blocks@[i].live_out@
            },
            old(self).ssa_ok() ==> final(self).ssa_ok(),
    {
        //do not overwrite existing successors
        if !self.check_existing_successor(pred) {
            self.blocks[pred].add_succesor(Successor::Conditional { num_type, condition, to_then, to_else });
            self.blocks[to_then].add_predecessor(pred);
            self.blocks[to_else].add_predecessor(pred);
            proof {
                let n = self.blocks@.len();
                assert forall|t: usize, a: usize| t < n && #[trigger] old(self).blocks@[t as int].predecessors@.contains(a) implies self.blocks@[t as int].predecessors@.contains(a) by {
                    let k = choose|k: int| 0 <= k < old(self).blocks@[t as int].predecessors@.len() && old(self).blocks@[t as int].predecessors@[k] == a;
                    if t == to_then || t == to_else {
                        assert(self.blocks@[t as int].predecessors@[k] == a);
                    } else {
                        assert(self.blocks@[t as int].predecessors@ == old(self).blocks@[t as int].predecessors@);
                    }
                }
                assert(self.blocks@[to_then as int].predecessors@.contains(pred)) by {
                    if to_then == to_else {
                        assert(self.blocks@[to_then as int].predecessors@[old(self).blocks@[to_then as int].predecessors@.len() as int] == pred);
                    } else {
                        assert(self.blocks@[to_then as int].predecessors@[old(self).blocks@[to_then as int].predecessors@.len() as int] == pred);
                    }
                }
                assert(self.blocks@[to_else as int].predecessors@.contains(pred)) by {
                    if to_then == to_else {
                        assert(self.blocks@[to_else as int].predecessors@[old(self).blocks@[to_else as int].predecessors@.len() as int] == pred);
                    } else {
                        assert(self.blocks@[to_else as int].predecessors@[old(self).blocks@[to_else as int].predecessors@.len() as int] == pred);
                    }
                }
                assert forall|a: int, j: int|
                    0 <= a < n && 0 <= j < succ_targets(self.blocks@[a].successors).len() implies self.blocks@[#[trigger] succ_targets(
                        self.blocks@[a].successors,
                    )[j] as int].predecessors@.contains(a as usize) by {
                    let t = succ_targets(self.blocks@[a].successors)[j];
                    assert(old(self).block_ok(a));
                    if a != pred {
                        assert(succ_targets(self.blocks@[a].successors) == succ_targets(old(self).blocks@[a].successors));
                        assert(t < n);
                        assert(old(self).blocks@[t as int].predecessors@.contains(a as usize));
                    }
                }
                assert forall|i: int| 0 <= i < n implies #[trigger] self.blocks@[i].links_below(n) by {
                    assert(old(self).block_ok(i));
                    let b = self.blocks@[i];
                    let ob = old(self).blocks@[i];
                    assert forall|j: int| 0 <= j < b.predecessors@.len() implies #[trigger] b.predecessors@[j] < n by {
                        if j < ob.predecessors@.len() {
                            assert(b.predecessors@[j] == ob.predecessors@[j] || b.predecessors@[j] == pred);
                        }
                    }
                }
                self.lemma_wf_after_links(*old(self));
            }
        }
        proof {
            lemma_statement_total(old(self).blocks@, self.blocks@, -1, 0);
            if old(self).ssa_ok() {
                assert forall|i: int| 0 <= i < old(self).blocks@.len() implies
                    same_outputs(#[trigger] self.blocks@[i], old(self).blocks@[i]) by {}
                self.lemma_ssa_kept(*old(self));
            }
        }
    }

    /// Blocks that keep their successors and their lists of predecessors keep
    /// every edge listed.
    pub proof fn lemma_links_kept(&self, before: CFG)
        requires
            before.wf(),
            self.blocks@.len() == before.blocks@.len(),
            forall|i: int|
                0 <= i < before.blocks@.len() ==> succ_targets((#[trigger] self.blocks@[i]).successors) == succ_targets(
                    before.blocks@[i].successors,
                ) && self.blocks@[i].predecessors@ == before.blocks@[i].predecessors@,
        ensures
            preds_listed(self.blocks@),
    {
        assert forall|i: int| 0 <= i < before.blocks@.len() implies #[trigger] before.blocks@[i].links_below(before.blocks@.len()) by {
            assert(before.block_ok(i));
        }
        lemma_links_same(before.blocks@, self.blocks@);
    }

    /// Well-formedness survives changes of links that keep every block below the block count.
    proof fn lemma_wf_after_links(&self, before: CFG)
        requires
            before.wf(),
            self.blocks@.len() == before.blocks@.len(),
            self.entry == before.entry,
            self.definitions == before.definitions,
            self.def_use == before.def_use,
            forall|i: int| 0 <= i < self.blocks@.len() ==> {
                &&& (#[trigger] self.blocks@[i]).id == before.blocks@[i].id
                &&& self.blocks@[i].phi_functions@ == before.blocks@[i].phi_functions@
                &&& self.blocks@[i].declarations == before.blocks@[i].declarations
                &&& self.blocks@[i].phi_uses == before.blocks@[i].phi_uses
                &&& self.blocks@[i].links_below(self.blocks@.len())
            },
            preds_listed(self.blocks@),
        ensures
            self.wf(),
    {
        assert forall|i: int| 0 <= i < self.blocks@.len() implies #[trigger] self.block_ok(i) by {
            assert(before.block_ok(i));
        }
        assert forall|k: Seq<char>| #[trigger] self.def_use@.contains_key(k) implies self.uses_ok(k) by {
            assert(before.uses_ok(k));
        }
    }

    /// Adds `var` to the φ-uses of every predecessor of `block`.
    fn mark_phi_use_in_predecessors(&mut self, block: usize, var: &str)
        requires
            old(self).wf(),
            block < old(self).blocks@.len(),
        ensures
            final(self).wf(),
            final(self).blocks@.len() == old(self).blocks@.len(),
            final(self).entry == old(self).entry,
            final(self).non_ssa_variables == old(self).non_ssa_variables,
            final(self).definitions == old(self).definitions,
            final(self).def_use == old(self).def_use,
            forall|i: int| 0 <= i < old(self).blocks@.len() ==> {
                &&& (#[trigger] final(self).blocks@[i]).phi_functions@ == old(self).blocks@[i].phi_functions@
                &&& final(self).blocks@[i].statements@ == old(self).blocks@[i].statements@
                &&& final(self).blocks@[i].predecessors@ == old(self).blocks@[i].predecessors@
                &&& final(self).blocks@[i].successors == old(self).blocks@[i].successors
                &&& final(self).blocks@[i].declarations == old(self).blocks@[i].declarations
                &&& final(self).blocks@[i].live_in@ == old(self).blocks@[i].live_in@
                &&& final(self).blocks@[i].live_out@ == old(self).blocks@[i].live_out@
                &&& old(self).blocks@[block as int].predecessors@.contains(i as usize) ==> final(self).blocks@[i].phi_uses@
                    == old(self).blocks@[i].phi_uses@.insert(var@, ())
                &&& !old(self).blocks@[block as int].predecessors@.contains(i as usize) ==> final(self).blocks@[i].phi_uses
                    == old(self).blocks@[i].phi_uses
            },
    {
        let preds = self.blocks[block].predecessors.clone();
        let ghost ps = preds@;
        let mut k: usize = 0;
        proof {
            assert(old(self).block_ok(block as int));
        }
        while k < preds.len()
            invariant
                self.wf(),
                preds@ == ps,
                ps == old(self).blocks@[block as int].predecessors@,
                k <= ps.len(),
                self.blocks@.len() == old(self).blocks@.len(),
                self.entry == old(self).entry,
                self.non_ssa_variables == old(self).non_ssa_variables,
                self.definitions == old(self).definitions,
                self.def_use == old(self).def_use,
                forall|j: int| 0 <= j < ps.len() ==> #[trigger] ps[j] < self.blocks@.len(),
                forall|i: int| 0 <= i < old(self).blocks@.len() ==> {
                    &&& (#[trigger] self.blocks@[i]).phi_functions@ == old(self).blocks@[i].phi_functions@
                    &&& self.blocks@[i].statements@ == old(self).blocks@[i].statements@
                    &&& self.blocks@[i].predecessors@ == old(self).blocks@[i].predecessors@
                    &&& self.blocks@[i].successors == old(self).blocks@[i].successors
                    &&& self.blocks@[i].declarations == old(self).blocks@[i].declarations
                    &&& self.blocks@[i].live_in@ == old(self).blocks@[i].live_in@
                    &&& self.blocks@[i].live_out@ == old(self).blocks@[i].live_out@
                    &&& ps.take(k as int).contains(i as usize) ==> self.blocks@[i].phi_uses@
                        == old(self).blocks@[i].phi_uses@.insert(var@, ())
                    &&& !ps.take(k as int).contains(i as usize) ==> self.blocks@[i].phi_uses
                        == old(self).blocks@[i].phi_uses
                },
            decreases ps.len() - k,
        {
            let p = preds[k];
            let ghost prev = *self;
            proof {
                assert(prev.block_ok(p as int));
            }
            self.blocks[p].add_phi_use(var);
            proof {
                assert forall|i: int| 0 <= i < self.blocks@.len() implies #[trigger] self.block_ok(i) by {
                    assert(prev.block_ok(i));
                }
                self.lemma_links_kept(prev);
                assert forall|kk: Seq<char>| #[trigger] self.def_use@.contains_key(kk) implies self.uses_ok(kk) by {
                    assert(prev.uses_ok(kk));
                }
                assert(ps.take(k + 1) =~= ps.take(k as int).push(p));
                assert forall|i: int| 0 <= i < old(self).blocks@.len() implies {
                    &&& ps.take(k + 1).contains(i as usize) ==> (#[trigger] self.blocks@[i]).phi_uses@
                        == old(self).blocks@[i].phi_uses@.insert(var@, ())
                    &&& !ps.take(k + 1).contains(i as usize) ==> self.blocks@[i].phi_uses
                        == old(self).blocks@[i].phi_uses
                } by {
                    assert(ps.take(k + 1)[k as int] == p);
                    if i == p {
                        if ps.take(k as int).contains(i as usize) {
                            assert(prev.blocks@[i].phi_uses@.insert(var@, ()) =~= old(self).blocks@[i].phi_uses@.insert(var@, ()).insert(var@, ()));
                            assert(old(self).blocks@[i].phi_uses@.insert(var@, ()).insert(var@, ()) =~= old(self).blocks@[i].phi_uses@.insert(var@, ()));
                        }
                    } else {
                        if ps.take(k + 1).contains(i as usize) {
                            let j = choose|j: int| 0 <= j < k + 1 && #[trigger] ps.take(k + 1)[j] == i as usize;
                            assert(old(self).blocks.len() == old(self).blocks@.len());
                            assert(i as usize != p);
                            assert(j != k);
                            assert(ps.take(k as int)[j] == i as usize);
                        } else {
                            if ps.take(k as int).contains(i as usize) {
                                let j = choose|j: int| 0 <= j < k && #[trigger] ps.take(k as int)[j] == i as usize;
                                assert(ps.take(k + 1)[j] == i as usize);
                            }
                        }
                    }
                }
            }
            k = k + 1;
        }
        proof {
            assert(ps.take(ps.len() as int) =~= ps);
        }
    }

    /// Adds the φ-function `phi` to `block`, records it as a φ-use of the block's
    /// predecessors, and records its definition; a variable that is already
    /// defined is an error (the SSA property), though the φ-function stays in the block.
    pub fn add_phi_function(&mut self, block: usize, phi: PhiFunction) -> (r: Result<LineInstruction, String>)
        requires
            old(self).wf(),
            block < old(self).blocks@.len(),
            forall|q: int| 0 <= q < phi.possibilities@.len() ==> #[trigger] phi.possibilities@[q].block < old(self).blocks@.len(),
        ensures
            final(self).wf(),
            statement_total(final(self).blocks@) == statement_total(old(self).blocks@),
            final(self).blocks@.len() == old(self).blocks@.len(),
            final(self).entry == old(self).entry,
            final(self).non_ssa_variables == old(self).non_ssa_variables,
            final(self).def_use == old(self).def_use,
            final(self).blocks@[block as int].phi_functions@ == old(self).blocks@[block as int].phi_functions@.push(phi),
            final(self).blocks@[block as int].declarations@ == old(self).blocks@[block as int].declarations@.insert(
                phi.output@,
                LineInstruction { is_phi: true, line: old(self).blocks@[block as int].phi_functions@.len() as usize },
            ),
            forall|i: int| 0 <= i < old(self).blocks@.len() ==> {
                &&& (#[trigger] final(self).blocks@[i]).statements@ == old(self).blocks@[i].statements@
                &&& final(self).blocks@[i].predecessors@ == old(self).blocks@[i].predecessors@
                &&& final(self).blocks@[i].successors == old(self).blocks@[i].successors
                &&& final(self).blocks@[i].live_in@ == old(self).blocks@[i].live_in@
                &&& final(self).blocks@[i].live_out@ == old(self).blocks@[i].live_out@
                &&& i != block ==> final(self).blocks@[i].phi_functions@ == old(self).blocks@[i].phi_functions@
                &&& i != block ==> final(self).blocks@[i].declarations == old(self).blocks@[i].declarations
                &&& old(self).blocks@[block as int].predecessors@.contains(i as usize) ==> final(self).blocks@[i].phi_uses@
                    == old(self).blocks@[i].phi_uses@.insert(phi.output@, ())
                &&& !old(self).blocks@[block as int].predecessors@.contains(i as usize) ==> final(self).blocks@[i].phi_uses
                    == old(self).blocks@[i].phi_uses
            },
            match r {
                Ok(line) => {
                    &&& !old(self).definitions@.contains_key(phi.output@)
                    &&& line == (LineInstruction { is_phi: true, line: old(self).blocks@[block as int].phi_functions@.len() as usize })
                    &&& final(self).definitions@ == old(self).definitions@.insert(phi.output@, (block, line))
                },
                Err(msg) => {
                    &&& old(self).definitions@.contains_key(phi.output@)
                    &&& msg@ == defined_twice_message(phi.output@)
                    &&& final(self).definitions == old(self).definitions
                },
            },
            old(self).ssa_ok() && r.is_ok() ==> final(self).ssa_ok(),
    {
        let var = phi.output.clone();
        let ghost phi_v = phi;
        proof {
            assert(old(self).block_ok(block as int));
        }
        let phi_count = self.blocks[block].phi_functions.len();
        let line = self.blocks[block].add_phi_function(phi);
        proof {
            lemma_statement_total(old(self).blocks@, self.blocks@, -1, 0);
            self.lemma_links_kept(*old(self));
            let n = self.blocks@.len();
            assert forall|i: int| 0 <= i < n implies #[trigger] self.block_ok(i) by {
                assert(old(self).block_ok(i));
            }
            assert forall|kk: Seq<char>| #[trigger] self.def_use@.contains_key(kk) implies self.uses_ok(kk) by {
                assert(old(self).uses_ok(kk));
            }
        }
        //Add the variables to the phi uses of the predecessors
        self.mark_phi_use_in_predecessors(block, var.as_str());
        proof {
            lemma_statement_total(old(self).blocks@, self.blocks@, -1, 0);
        }
        if self.definitions.contains(var.as_str()) {
            // Check SSA property
            return Err(defined_twice(var.as_str()));
        } else {
            let ghost before = *self;
            self.definitions.insert(var, (block, line));
            proof {
                assert forall|kk: Seq<char>| #[trigger] self.definitions@.contains_key(kk) implies
                    self.definitions@[kk].0 < self.blocks@.len() by {
                    if kk != phi_v.output@ {
                        assert(before.definitions@.contains_key(kk));
                    }
                }
                assert forall|i: int| 0 <= i < self.blocks@.len() implies #[trigger] self.block_ok(i) by {
                    assert(before.block_ok(i));
                }
                assert forall|kk: Seq<char>| #[trigger] self.def_use@.contains_key(kk) implies self.uses_ok(kk) by {
                    assert(before.uses_ok(kk));
                }
            }
        }
        proof {
            if old(self).ssa_ok() {
                let ob = old(self).blocks@[block as int];
                assert forall|i: int| 0 <= i < old(self).blocks@.len() && i != block implies
                    same_outputs(#[trigger] self.blocks@[i], old(self).blocks@[i]) by {}
                assert forall|k2: Seq<char>, l2: LineInstruction| #[trigger] self.defines_at(k2, block, l2) implies
                    Some((phi_v.output@, line)) == Some((k2, l2)) || old(self).defines_at(k2, block, l2) by {
                    if l2.is_phi && l2.line == ob.phi_functions@.len() {
                        assert(l2 == line);
                    }
                }
                assert forall|k2: Seq<char>, l2: LineInstruction| #[trigger] old(self).defines_at(k2, block, l2) implies
                    self.defines_at(k2, block, l2) by {}
                assert(self.blocks@[block as int].phi_functions@[ob.phi_functions@.len() as int] == phi_v);
                assert(self.defines_at(phi_v.output@, block, line));
                self.lemma_ssa_grown(*old(self), block, Some((phi_v.output@, line)));
            }
        }
        Ok(line)
    }

    /// Adds the statement `stmt` at the end of `block` and records the definition of
    /// its output; an output that is already defined is an error (the SSA
    /// property), though the statement stays in the block.
    pub fn add_instruction(&mut self, block: usize, stmt: Statement) -> (r: Result<(), String>)
        requires
            old(self).wf(),
            block < old(self).blocks@.len(),
        ensures
            final(self).wf(),
            statement_total(final(self).blocks@) == statement_total(old(self).blocks@) + 1,
            final(self).blocks@.len() == old(self).blocks@.len(),
            final(self).entry == old(self).entry,
            final(self).non_ssa_variables == old(self).non_ssa_variables,
            final(self).def_use == old(self).def_use,
            final(self).blocks@[block as int].statements@ == old(self).blocks@[block as int].statements@.push(stmt),
            final(self).blocks@[block as int].declarations@ == match stmt.output {
                Some(o) => old(self).blocks@[block as int].declarations@.insert(o@,
                    LineInstruction { is_phi: false, line: old(self).blocks@[block as int].statements@.len() as usize }),
                None => old(self).blocks@[block as int].declarations@,
            },
            forall|i: int| 0 <= i < old(self).blocks@.len() ==> {
                &&& (#[trigger] final(self).blocks@[i]).phi_functions@ == old(self).blocks@[i].phi_functions@
                &&& final(self).blocks@[i].predecessors@ == old(self).blocks@[i].predecessors@
                &&& final(self).blocks@[i].successors == old(self).blocks@[i].successors
                &&& final(self).blocks@[i].phi_uses == old(self).blocks@[i].phi_uses
                &&& final(self).blocks@[i].live_in@ == old(self).blocks@[i].live_in@
                &&& final(self).blocks@[i].live_out@ == old(self).blocks@[i].live_out@
                &&& i != block ==> final(self).blocks@[i].statements@ == old(self).blocks@[i].statements@
                &&& i != block ==> final(self).blocks@[i].declarations == old(self).blocks@[i].declarations
            },
            match stmt.output {
                None => r.is_ok() && final(self).definitions == old(self).definitions,
                Some(o) => match r {
                    Ok(_) => {
                        &&& !old(self).definitions@.contains_key(o@)
                        &&& final(self).definitions@ == old(self).definitions@.insert(o@,
                            (block, LineInstruction { is_phi: false, line: old(self).blocks@[block as int].statements@.len() as usize }))
                    },
                    Err(msg) => {
                        &&& old(self).definitions@.contains_key(o@)
                        &&& msg@ == defined_twice_message(o@)
                        &&& final(self).definitions == old(self).definitions
                    },
                },
            },
            old(self).ssa_ok() && r.is_ok() ==> final(self).ssa_ok(),
    {
        let var = duplicate_opt_name(&stmt.output);
        let ghost stmt_v = stmt;
        proof {
            assert(old(self).block_ok(block as int));
        }
        let stmt_count = self.blocks[block].statements.len();
        let line = self.blocks[block].add_instruction(stmt);
        proof {
            lemma_statement_total(old(self).blocks@, self.blocks@, block as int, 1);
            self.lemma_links_kept(*old(self));
            let n = self.blocks@.len();
            assert forall|i: int| 0 <= i < n implies #[trigger] self.block_ok(i) by {
                assert(old(self).block_ok(i));
            }
            assert forall|kk: Seq<char>| #[trigger] self.def_use@.contains_key(kk) implies self.uses_ok(kk) by {
                assert(old(self).uses_ok(kk));
            }
        }
        if let Some(output) = var {
            if self.definitions.contains(output.as_str()) {
                // Check SSA property
                return Err(defined_twice(output.as_str()));
            } else {
                let ghost before = *self;
                let ghost ov = output@;
                self.definitions.insert(output, (block, line));
                proof {
                    assert forall|kk: Seq<char>| #[trigger] self.definitions@.contains_key(kk) implies
                        self.definitions@[kk].0 < self.blocks@.len() by {
                        if kk != ov {
                            assert(before.definitions@.contains_key(kk));
                        }
                    }
                assert forall|i: int| 0 <= i < self.blocks@.len() implies #[trigger] self.block_ok(i) by {
                    assert(before.block_ok(i));
                }
                assert forall|kk: Seq<char>| #[trigger] self.def_use@.contains_key(kk) implies self.uses_ok(kk) by {
                    assert(before.uses_ok(kk));
                }
                }
            }
        }
        proof {
            if old(self).ssa_ok() {
                let ob = old(self).blocks@[block as int];
                let l = LineInstruction { is_phi: false, line: ob.statements@.len() as usize };
                let nd = match stmt_v.output {
                    Some(o) => Some((o@, l)),
                    None => None,
                };
                assert forall|i: int| 0 <= i < old(self).blocks@.len() && i != block implies
                    same_outputs(#[trigger] self.blocks@[i], old(self).blocks@[i]) by {}
                assert forall|k2: Seq<char>, l2: LineInstruction| #[trigger] self.defines_at(k2, block, l2) implies
                    nd == Some((k2, l2)) || old(self).defines_at(k2, block, l2) by {
                    if !l2.is_phi && l2.line == ob.statements@.len() {
                        assert(l2 == l);
                    }
                }
                assert forall|k2: Seq<char>, l2: LineInstruction| #[trigger] old(self).defines_at(k2, block, l2) implies
                    self.defines_at(k2, block, l2) by {}
                assert(self.blocks@[block as int].statements@[ob.statements@.len() as int] == stmt_v);
                self.lemma_ssa_grown(*old(self), block, nd);
            }
        }
        Ok(())
    }

    /// The def-use chains: every variable that is read, with the set of its uses.
    pub open spec fn uses_view(&self) -> Map<Seq<char>, Set<Use>> {
        Map::new(|k: Seq<char>| self.def_use@.contains_key(k), |k: Seq<char>| self.def_use@[k]@)
    }

    /// The uses of `var`, empty when it has none.
    pub open spec fn uses_of(&self, var: Seq<char>) -> Set<Use> {
        if self.uses_view().contains_key(var) {
            self.uses_view()[var]
        } else {
            Set::empty()
        }
    }

    proof fn lemma_wf_after_def_use(&self, before: CFG)
        requires
            before.wf(),
            self.blocks == before.blocks,
            self.entry == before.entry,
            self.definitions == before.definitions,
            self.def_use.wf(),
            forall|k: Seq<char>| #[trigger] self.def_use@.contains_key(k) ==> self.uses_ok(k),
        ensures
            self.wf(),
    {
        assert forall|i: int| 0 <= i < self.blocks@.len() implies #[trigger] self.block_ok(i) by {
            assert(before.block_ok(i));
        }
    }

    /// Records the use `u` of `target`.
    fn add_use(&mut self, target: String, u: Use)
        requires
            old(self).wf(),
            use_block(u) < old(self).blocks@.len(),
        ensures
            final(self).wf(),
            final(self).blocks == old(self).blocks,
            final(self).entry == old(self).entry,
            final(self).non_ssa_variables == old(self).non_ssa_variables,
            final(self).definitions == old(self).definitions,
            final(self).uses_view() == old(self).uses_view().insert(target@, old(self).uses_of(target@).insert(u)),
    {
        let ghost tv = target@;
        let mut set = match self.def_use.remove(target.as_str()) {
            Some(s) => s,
            None => ItemSet::new(),
        };
        proof {
            if old(self).def_use@.contains_key(tv) {
                assert(old(self).uses_ok(tv));
            }
        }
        set.insert(u);
        let ghost set_v = set;
        let ghost mid = self.def_use@;
        self.def_use.insert(target, set);
        proof {
            assert forall|k: Seq<char>| #[trigger] self.def_use@.contains_key(k) implies self.uses_ok(k) by {
                if k != tv {
                    assert(old(self).uses_ok(k));
                } else {
                    assert forall|x: Use| #[trigger] self.def_use@[k]@.contains(x) implies use_block(x) < self.blocks@.len() by {
                        if x != u {
                            assert(old(self).def_use@[k]@.contains(x));
                        }
                    }
                }
            }
            self.lemma_wf_after_def_use(*old(self));
            assert(self.uses_view() =~= old(self).uses_view().insert(tv, old(self).uses_of(tv).insert(u)));
        }
    }

    /// Forgets the use `u` of `target`; a variable left without uses leaves the chains.
    fn drop_use(&mut self, target: &str, u: Use)
        requires
            old(self).wf(),
        ensures
            final(self).wf(),
            final(self).blocks == old(self).blocks,
            final(self).entry == old(self).entry,
            final(self).non_ssa_variables == old(self).non_ssa_variables,
            final(self).definitions == old(self).definitions,
            old(self).uses_of(target@).remove(u).len() == 0 && old(self).def_use@.contains_key(target@) ==>
                final(self).uses_view() == old(self).uses_view().remove(target@),
            !(old(self).uses_of(target@).remove(u).len() == 0 && old(self).def_use@.contains_key(target@)) ==>
                final(self).uses_view() == if old(self).def_use@.contains_key(target@) {
                    old(self).uses_view().insert(target@, old(self).uses_of(target@).remove(u))
                } else {
                    old(self).uses_view()
                },
    {
        let ghost tv = target@;
        match self.def_use.remove(target) {
            Some(mut set) => {
                proof {
                    assert(old(self).uses_ok(tv));
                }
                set.remove(&u);
                if set.len() == 0 {
                    proof {
                        set.items@.unique_seq_to_set();
                        assert forall|k: Seq<char>| #[trigger] self.def_use@.contains_key(k) implies self.uses_ok(k) by {
                            assert(old(self).uses_ok(k));
                        }
                        self.lemma_wf_after_def_use(*old(self));
                        assert(set@ =~= Set::<Use>::empty());
                        assert(self.uses_view() =~= old(self).uses_view().remove(tv));
                    }
                } else {
                    proof {
                        set.items@.unique_seq_to_set();
                    }
                    self.def_use.insert(owned(target), set);
                    proof {
                        assert forall|k: Seq<char>| #[trigger] self.def_use@.contains_key(k) implies self.uses_ok(k) by {
                            if k != tv {
                                assert(old(self).uses_ok(k));
                            } else {
                                assert forall|x: Use| #[trigger] self.def_use@[k]@.contains(x) implies use_block(x) < self.blocks@.len() by {
                                    assert(old(self).def_use@[k]@.contains(x));
                                }
                            }
                        }
                        self.lemma_wf_after_def_use(*old(self));
                        assert(self.uses_view() =~= old(self).uses_view().insert(tv, old(self).uses_of(tv).remove(u)));
                    }
                }
            },
            None => {
                proof {
                    assert(self.def_use@ =~= old(self).def_use@);
                    assert forall|k: Seq<char>| #[trigger] self.def_use@.contains_key(k) implies self.uses_ok(k) by {
                        assert(old(self).uses_ok(k));
                    }
                    self.lemma_wf_after_def_use(*old(self));
                    assert(self.uses_view() =~= old(self).uses_view());
                }
            },
        }
    }

    /// Records that the instruction at `line` of `block` reads `target`.
    pub fn track_use_instruction(&mut self, block: usize, target: String, line: LineInstruction)
        requires
            old(self).wf(),
            block < old(self).blocks@.len(),
        ensures
            final(self).wf(),
            statement_total(final(self).blocks@) == statement_total(old(self).blocks@),
            final(self).blocks == old(self).blocks,
            final(self).entry == old(self).entry,
            final(self).non_ssa_variables == old(self).non_ssa_variables,
            final(self).definitions == old(self).definitions,
            final(self).uses_view() == old(self).uses_view().insert(target@,
                old(self).uses_of(target@).insert(Use::InInstruction(block, line))),
            old(self).ssa_ok() ==> final(self).ssa_ok(),
    {
        self.add_use(target, Use::InInstruction(block, line));
        proof {
            if old(self).ssa_ok() {
                self.lemma_ssa_kept(*old(self));
            }
        }
    }

    /// Records that the condition of `block`'s successor reads `target`.
    pub fn track_use_condition(&mut self, block: usize, target: String)
        requires
            old(self).wf(),
            block < old(self).blocks@.len(),
        ensures
            final(self).wf(),
            statement_total(final(self).blocks@) == statement_total(old(self).blocks@),
            final(self).blocks == old(self).blocks,
            final(self).entry == old(self).entry,
            final(self).non_ssa_variables == old(self).non_ssa_variables,
            final(self).definitions == old(self).definitions,
            final(self).uses_view() == old(self).uses_view().insert(target@,
                old(self).uses_of(target@).insert(Use::InCondition(block))),
            old(self).ssa_ok() ==> final(self).ssa_ok(),
    {
        self.add_use(target, Use::InCondition(block));
        proof {
            if old(self).ssa_ok() {
                self.lemma_ssa_kept(*old(self));
            }
        }
    }

    /// Renames `target` to `replacement` in the instruction at `line` of `block`
    /// and moves that use from `target`'s chain to `replacement`'s.
    /// Returns the variable that the instruction declares, if any.
    pub fn change_instruction_operands(&mut self, block: usize, line: &LineInstruction, target: &str, replacement: &str) -> (r: Option<String>)
        requires
            old(self).wf(),
            block < old(self).blocks@.len(),
        ensures
            final(self).wf(),
            statement_total(final(self).blocks@) == statement_total(old(self).blocks@),
            final(self).blocks@.len() == old(self).blocks@.len(),
            final(self).entry == old(self).entry,
            final(self).non_ssa_variables == old(self).non_ssa_variables,
            final(self).definitions == old(self).definitions,
            forall|i: int| 0 <= i < old(self).blocks@.len() && i != block ==> #[trigger] final(self).blocks@[i] == old(self).blocks@[i],
            final(self).blocks@[block as int].predecessors@ == old(self).blocks@[block as int].predecessors@,
            final(self).blocks@[block as int].successors == old(self).blocks@[block as int].successors,
            final(self).blocks@[block as int].live_in@ == old(self).blocks@[block as int].live_in@,
            final(self).blocks@[block as int].live_out@ == old(self).blocks@[block as int].live_out@,
            line.is_phi && line.line < old(self).blocks@[block as int].phi_functions@.len() ==> {
                &&& phis_view(final(self).blocks@[block as int].phi_functions@) == phis_view(old(self).blocks@[block as int].phi_functions@).update(
                    line.line as int,
                    SpecPhi {
                        output: old(self).blocks@[block as int].phi_functions@[line.line as int].output@,
                        possibilities: rename_poss(poss_view(old(self).blocks@[block as int].phi_functions@[line.line as int].possibilities@), target@, replacement@),
                    },
                )
                &&& opt_name(r) == Some(old(self).blocks@[block as int].phi_functions@[line.line as int].output@)
            },
            !line.is_phi && line.line < old(self).blocks@[block as int].statements@.len() ==> {
                &&& stmts_view(final(self).blocks@[block as int].statements@) == stmts_view(old(self).blocks@[block as int].statements@).update(
                    line.line as int,
                    SpecStatement {
                        num_type: old(self).blocks@[block as int].statements@[line.line as int].num_type,
                        output: opt_name(old(self).blocks@[block as int].statements@[line.line as int].output),
                        operator: old(self).blocks@[block as int].statements@[line.line as int].value.operator,
                        operands: rename_exprs(exprs_view(old(self).blocks@[block as int].statements@[line.line as int].value.operands@), target@, replacement@),
                    },
                )
                &&& opt_name(r) == opt_name(old(self).blocks@[block as int].statements@[line.line as int].output)
            },
            final(self).uses_of(replacement@).contains(Use::InInstruction(block, *line)),
            target@ != replacement@ ==> !final(self).uses_of(target@).contains(Use::InInstruction(block, *line)),
            same_outputs(final(self).blocks@[block as int], old(self).blocks@[block as int]),
            old(self).ssa_ok() ==> final(self).ssa_ok(),
    {
        proof {
            assert(old(self).block_ok(block as int));
        }
        let declared_var = self.blocks[block].change_instruction_operands(line, target, replacement);
        proof {
            lemma_statement_total(old(self).blocks@, self.blocks@, block as int, 0);
            self.lemma_links_kept(*old(self));
            let n = self.blocks@.len();
            assert forall|i: int| 0 <= i < n implies #[trigger] self.block_ok(i) by {
                assert(old(self).block_ok(i));
                if i == block {
                    let b = self.blocks@[i];
                    let ob = old(self).blocks@[i];
                    assert forall|p: int, q: int|
                        0 <= p < b.phi_functions@.len() && 0 <= q < b.phi_functions@[p].possibilities@.len()
                            implies #[trigger] b.phi_functions@[p].possibilities@[q].block < n by {
                        assert(b.phi_functions@[p].possibilities@[q].block == ob.phi_functions@[p].possibilities@[q].block);
                    }
                }
            }
            assert forall|kk: Seq<char>| #[trigger] self.def_use@.contains_key(kk) implies self.uses_ok(kk) by {
                assert(old(self).uses_ok(kk));
            }
        }
        let ghost mid = *self;
        self.drop_use(target, Use::InInstruction(block, *line));
        self.add_use(owned(replacement), Use::InInstruction(block, *line));
        proof {
            assert(self.uses_of(replacement@).contains(Use::InInstruction(block, *line)));
            if old(self).ssa_ok() {
                assert forall|i: int| 0 <= i < old(self).blocks@.len() implies
                    same_outputs(#[trigger] self.blocks@[i], old(self).blocks@[i]) by {}
                self.lemma_ssa_kept(*old(self));
            }
        }
        declared_var
    }

    /// Renames `target` to `replacement` in the condition of `block`'s successor and
    /// moves that use from `target`'s chain to `replacement`'s.
    pub fn change_condition_use(&mut self, block: usize, target: &str, replacement: &str)
        requires
            old(self).wf(),
            block < old(self).blocks@.len(),
        ensures
            final(self).wf(),
            statement_total(final(self).blocks@) == statement_total(old(self).blocks@),
            final(self).blocks@.len() == old(self).blocks@.len(),
            final(self).entry == old(self).entry,
            final(self).non_ssa_variables == old(self).non_ssa_variables,
            final(self).definitions == old(self).definitions,
            forall|i: int| 0 <= i < old(self).blocks@.len() && i != block ==> #[trigger] final(self).blocks@[i] == old(self).blocks@[i],
            final(self).blocks@[block as int].phi_functions@ == old(self).blocks@[block as int].phi_functions@,
            final(self).blocks@[block as int].statements@ == old(self).blocks@[block as int].statements@,
            final(self).blocks@[block as int].predecessors@ == old(self).blocks@[block as int].predecessors@,
            final(self).blocks@[block as int].live_in@ == old(self).blocks@[block as int].live_in@,
            final(self).blocks@[block as int].live_out@ == old(self).blocks@[block as int].live_out@,
            opt_succ(final(self).blocks@[block as int].successors) == match opt_succ(old(self).blocks@[block as int].successors) {
                Some(SpecSuccessor::Conditional { num_type, condition, to_then, to_else }) => Some(SpecSuccessor::Conditional {
                    num_type,
                    condition: rename_expr(condition, single_renaming(target@, replacement@)),
                    to_then,
                    to_else,
                }),
                other => other,
            },
            final(self).uses_of(replacement@).contains(Use::InCondition(block)),
            target@ != replacement@ ==> !final(self).uses_of(target@).contains(Use::InCondition(block)),
            old(self).ssa_ok() ==> final(self).ssa_ok(),
    {
        self.drop_use(target, Use::InCondition(block));
        self.add_use(owned(replacement), Use::InCondition(block));
        let ghost mid = *self;
        proof {
            assert(mid.uses_of(replacement@).contains(Use::InCondition(block)));
        }
        proof {
            assert(mid.block_ok(block as int));
        }
        self.blocks[block].change_condition(target, replacement);
        proof {
            lemma_statement_total(mid.blocks@, self.blocks@, block as int, 0);
            self.lemma_links_kept(mid);
            let n = self.blocks@.len();
            assert forall|i: int| 0 <= i < n implies #[trigger] self.block_ok(i) by {
                assert(mid.block_ok(i));
                if i == block {
                    let b = self.blocks@[i];
                    assert(succ_targets(b.successors) == succ_targets(mid.blocks@[i].successors));
                }
            }
            assert forall|kk: Seq<char>| #[trigger] self.def_use@.contains_key(kk) implies self.uses_ok(kk) by {
                assert(mid.uses_ok(kk));
            }
            if old(self).ssa_ok() {
                assert forall|i: int| 0 <= i < old(self).blocks@.len() implies
                    same_outputs(#[trigger] self.blocks@[i], old(self).blocks@[i]) by {}
                self.lemma_ssa_kept(*old(self));
            }
        }
    }

    pub fn get_block_size(&self, block: usize) -> (r: usize)
        requires
            block < self.blocks@.len(),
        ensures
            r == self.blocks@[block as int].statements@.len(),
    {
        self.blocks[block].statements.len()
    }
}

} // verus!
