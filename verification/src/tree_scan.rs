//! Tree-scan register coloring of a graph in conventional SSA form: variables
//! whose live ranges do not meet share a color, variables of different numeric
//! types never do, and every variable is renamed after its color.

use vstd::prelude::*;

use crate::cfg::{
    duplicate_exprs, exprs_view, opt_name, phis_view, poss_view, stmts_view, BasicBlock, PhiFunction,
    PhiPossibility, SpecPhi, SpecStatement, SpecSuccessor, Statement, Successor, Value, opt_succ,
};
use crate::collections::{lemma_seq_map_entry, NameMap};
use crate::cvm_emission::{compute_idom, idom_ok};
use crate::edge_liveness::{
    add_name, args_from, compute_fresh_live_out, cond_reads, first_keys, first_names, lemma_first_keys_all,
    lemma_first_keys_step, lemma_first_names_all, lemma_first_names_step, poss_from, reads_of, NameSet,
};
use crate::graph::{adj_edge, adj_path, adj_reachable, lemma_closed_path};
use crate::liveness::{count_false, lemma_count_false_set, links_ok};
use crate::ssa_destruction::{same_frame, same_phi_shape};
use crate::cfg::CFG;
use crate::types::{
    expr_vars, rename_atomic, rename_expr, Atomic, ConstantType, Expression, NumericType, Operator, Parameter, SpecAtomic,
    SpecConstant, SpecExpression,
};

verus! {

broadcast use vstd::string::group_string_axioms;

// ---------------------------------------------------------------------------
// Renaming after colors
// ---------------------------------------------------------------------------

/// The renaming that a map from names to names stands for.
pub open spec fn renaming_view(m: NameMap<String>) -> Map<Seq<char>, Seq<char>> {
    Map::new(|k: Seq<char>| m@.contains_key(k), |k: Seq<char>| m@[k]@)
}

/// A name after renaming: its image where the renaming has one, else itself.
pub open spec fn rename_name(x: Seq<char>, f: Map<Seq<char>, Seq<char>>) -> Seq<char> {
    if f.contains_key(x) {
        f[x]
    } else {
        x
    }
}

pub open spec fn rename_opt(o: Option<Seq<char>>, f: Map<Seq<char>, Seq<char>>) -> Option<Seq<char>> {
    match o {
        Some(x) => Some(rename_name(x, f)),
        None => None,
    }
}

pub open spec fn rename_statement(s: SpecStatement, f: Map<Seq<char>, Seq<char>>) -> SpecStatement {
    SpecStatement {
        num_type: s.num_type,
        output: rename_opt(s.output, f),
        operator: s.operator,
        operands: s.operands.map_values(|e: SpecExpression| rename_expr(e, f)),
    }
}

pub open spec fn rename_phi(p: SpecPhi, f: Map<Seq<char>, Seq<char>>) -> SpecPhi {
    SpecPhi {
        output: rename_name(p.output, f),
        possibilities: p.possibilities.map_values(|q: (Seq<char>, usize)| (rename_name(q.0, f), q.1)),
    }
}

pub open spec fn rename_successor(s: Option<SpecSuccessor>, f: Map<Seq<char>, Seq<char>>) -> Option<SpecSuccessor> {
    match s {
        Some(SpecSuccessor::Conditional { num_type, condition, to_then, to_else }) => Some(
            SpecSuccessor::Conditional { num_type, condition: rename_expr(condition, f), to_then, to_else },
        ),
        other => other,
    }
}

/// Whether a statement copies a variable into itself.
pub open spec fn spec_identity(s: SpecStatement) -> bool {
    &&& s.output.is_some()
    &&& s.operator.is_none()
    &&& s.operands.len() == 1
    &&& s.operands[0] == SpecExpression::Atomic(SpecAtomic::Variable(s.output.unwrap()))
}

pub open spec fn keeps_statement() -> spec_fn(SpecStatement) -> bool {
    |s: SpecStatement| !spec_identity(s)
}

/// Block `nb` is block `ob` with every name renamed by `f`, and without the copies
/// of a variable to itself that the renaming leaves.
pub open spec fn renamed_block(nb: BasicBlock, ob: BasicBlock, f: Map<Seq<char>, Seq<char>>) -> bool {
    &&& phis_view(nb.phi_functions@) == phis_view(ob.phi_functions@).map_values(|p: SpecPhi| rename_phi(p, f))
    &&& stmts_view(nb.statements@) == stmts_view(ob.statements@).map_values(
        |s: SpecStatement| rename_statement(s, f),
    ).filter(keeps_statement())
    &&& opt_succ(nb.successors) == rename_successor(opt_succ(ob.successors), f)
}

/// A renaming gives each variable a name of the same numeric type.
pub open spec fn type_preserving(f: Map<Seq<char>, Seq<char>>, types: Map<Seq<char>, NumericType>) -> bool {
    forall|v: Seq<char>| #[trigger] f.contains_key(v) ==> spec_type_of(f[v], types) == spec_type_of(v, types)
}

/// The name of `x` after renaming.
pub fn renamed_name(x: &String, rename: &NameMap<String>) -> (r: String)
    requires
        rename.wf(),
    ensures
        r@ == rename_name(x@, renaming_view(*rename)),
{
    match rename.get(x.as_str()) {
        Some(n) => n.clone(),
        None => x.clone(),
    }
}

fn rename_in_atomic(a: &mut Atomic, rename: &NameMap<String>)
    requires
        rename.wf(),
    ensures
        final(a)@ == rename_atomic(old(a)@, renaming_view(*rename)),
{
    if let Atomic::Variable(v) = a {
        if let Some(new_name) = rename.get(v.as_str()) {
            *v = new_name.clone();
        }
    }
}

/// Rename variables inside an expression using the rename map.
pub fn rename_in_expression(expr: &mut Expression, rename: &NameMap<String>)
    requires
        rename.wf(),
    ensures
        final(expr)@ == rename_expr(old(expr)@, renaming_view(*rename)),
{
    match expr {
        Expression::Atomic(a) => {
            rename_in_atomic(a, rename);
        },
        Expression::Parameter(param) => {
            match param {
                Parameter::Signal { index, size } => {
                    rename_in_atomic(index, rename);
                    rename_in_atomic(size, rename);
                },
                Parameter::I64Memory { index, size } => {
                    rename_in_atomic(index, rename);
                    rename_in_atomic(size, rename);
                },
                Parameter::FfMemory { index, size } => {
                    rename_in_atomic(index, rename);
                    rename_in_atomic(size, rename);
                },
                Parameter::SubcmpSignal { component, index, size } => {
                    rename_in_atomic(component, rename);
                    rename_in_atomic(index, rename);
                    rename_in_atomic(size, rename);
                },
            }
        },
    }
}

/// A renamed copy of a statement.
pub fn renamed_statement(st: &Statement, rename: &NameMap<String>) -> (r: Statement)
    requires
        rename.wf(),
    ensures
        r@ == rename_statement(st@, renaming_view(*rename)),
{
    let mut ops = duplicate_exprs(&st.value.operands);
    proof {
        assert(exprs_view(ops@).len() == exprs_view(st.value.operands@).len());
        assert forall|j: int| 0 <= j < ops@.len() implies (#[trigger] ops@[j])@ == st.value.operands@[j]@ by {
            assert(exprs_view(ops@)[j] == exprs_view(st.value.operands@)[j]);
        }
    }
    let mut i: usize = 0;
    while i < ops.len()
        invariant
            rename.wf(),
            i <= ops@.len(),
            ops@.len() == st.value.operands@.len(),
            forall|j: int| 0 <= j < i ==> (#[trigger] ops@[j])@ == rename_expr(
                st.value.operands@[j]@,
                renaming_view(*rename),
            ),
            forall|j: int| i <= j < ops@.len() ==> (#[trigger] ops@[j])@ == st.value.operands@[j]@,
        decreases ops@.len() - i,
    {
        proof {
            assert(exprs_view(ops@)[i as int] == exprs_view(st.value.operands@)[i as int]);
        }
        let mut e = ops[i].duplicate();
        rename_in_expression(&mut e, rename);
        ops.set(i, e);
        i = i + 1;
    }
    let output = match &st.output {
        Some(o) => Some(renamed_name(o, rename)),
        None => None,
    };
    let r = Statement { num_type: st.num_type, output, value: Value { operator: st.value.operator, operands: ops } };
    proof {
        assert(r@.operands =~= st@.operands.map_values(|e: SpecExpression| rename_expr(e, renaming_view(*rename))));
    }
    r
}

/// A renamed copy of a φ-function.
pub fn renamed_phi(phi: &PhiFunction, rename: &NameMap<String>) -> (r: PhiFunction)
    requires
        rename.wf(),
    ensures
        r@ == rename_phi(phi@, renaming_view(*rename)),
        r.possibilities@.len() == phi.possibilities@.len(),
        forall|q: int| 0 <= q < phi.possibilities@.len() ==> (#[trigger] r.possibilities@[q]).block
            == phi.possibilities@[q].block,
{
    let mut poss: Vec<PhiPossibility> = Vec::new();
    let mut i: usize = 0;
    while i < phi.possibilities.len()
        invariant
            rename.wf(),
            i <= phi.possibilities@.len(),
            poss@.len() == i,
            forall|j: int| 0 <= j < i ==> (#[trigger] poss@[j]).block == phi.possibilities@[j].block
                && poss@[j].variable@ == rename_name(phi.possibilities@[j].variable@, renaming_view(*rename)),
        decreases phi.possibilities@.len() - i,
    {
        let v = renamed_name(&phi.possibilities[i].variable, rename);
        poss.push(PhiPossibility { variable: v, block: phi.possibilities[i].block });
        i = i + 1;
    }
    let r = PhiFunction { output: renamed_name(&phi.output, rename), possibilities: poss };
    proof {
        assert(r@.possibilities =~= phi@.possibilities.map_values(
            |q: (Seq<char>, usize)| (rename_name(q.0, renaming_view(*rename)), q.1),
        ));
    }
    r
}

impl BasicBlock {
    /// Renames every variable of the block and drops the statements that become
    /// copies of a variable into itself.
    pub fn apply_renaming(&mut self, rename: &NameMap<String>)
        requires
            rename.wf(),
        ensures
            phis_view(final(self).phi_functions@) == phis_view(old(self).phi_functions@).map_values(
                |p: SpecPhi| rename_phi(p, renaming_view(*rename)),
            ),
            stmts_view(final(self).statements@) == stmts_view(old(self).statements@).map_values(
                |s: SpecStatement| rename_statement(s, renaming_view(*rename)),
            ).filter(keeps_statement()),
            opt_succ(final(self).successors) == rename_successor(opt_succ(old(self).successors), renaming_view(*rename)),
            crate::cfg::succ_targets(final(self).successors) == crate::cfg::succ_targets(old(self).successors),
            crate::ssa_destruction::same_phi_shape(final(self).phi_functions@, old(self).phi_functions@),
            final(self).id == old(self).id,
            final(self).predecessors == old(self).predecessors,
            final(self).declarations == old(self).declarations,
            final(self).phi_uses == old(self).phi_uses,
            final(self).live_in == old(self).live_in,
            final(self).live_out == old(self).live_out,
    {
        let ghost f = renaming_view(*rename);
        // Rename phi functions
        let mut phis: Vec<PhiFunction> = Vec::new();
        let mut i: usize = 0;
        while i < self.phi_functions.len()
            invariant
                rename.wf(),
                f == renaming_view(*rename),
                i <= self.phi_functions@.len(),
                phis@.len() == i,
                forall|k: int| 0 <= k < i ==> (#[trigger] phis@[k])@ == rename_phi(self.phi_functions@[k]@, f),
                forall|k: int| 0 <= k < i ==> (#[trigger] phis@[k]).possibilities@.len()
                    == self.phi_functions@[k].possibilities@.len(),
                forall|k: int, q: int|
                    0 <= k < i && 0 <= q < self.phi_functions@[k].possibilities@.len() ==> (#[trigger] phis@[k].possibilities@[q]).block
                        == self.phi_functions@[k].possibilities@[q].block,
            decreases self.phi_functions@.len() - i,
        {
            phis.push(renamed_phi(&self.phi_functions[i], rename));
            i = i + 1;
        }
        proof {
            assert(phis_view(phis@) =~= phis_view(self.phi_functions@).map_values(|p: SpecPhi| rename_phi(p, f)));
        }
        // Rename statements, dropping the identity copies
        let mut kept: Vec<Statement> = Vec::new();
        let ghost all = stmts_view(self.statements@).map_values(|s: SpecStatement| rename_statement(s, f));
        let mut j: usize = 0;
        while j < self.statements.len()
            invariant
                rename.wf(),
                f == renaming_view(*rename),
                j <= self.statements@.len(),
                all == stmts_view(self.statements@).map_values(|s: SpecStatement| rename_statement(s, f)),
                stmts_view(kept@) == all.take(j as int).filter(keeps_statement()),
            decreases self.statements@.len() - j,
        {
            let st = renamed_statement(&self.statements[j], rename);
            let ghost kept0 = stmts_view(kept@);
            proof {
                reveal(Seq::filter);
                assert(all.take(j + 1).drop_last() =~= all.take(j as int));
                assert(all.take(j + 1).last() == st@);
                assert(keeps_statement()(st@) == !spec_identity(st@));
            }
            if !st.is_identity_copy() {
                kept.push(st);
                proof {
                    assert(stmts_view(kept@) =~= kept0.push(st@));
                }
            }
            j = j + 1;
        }
        proof {
            assert(all.take(self.statements@.len() as int) =~= all);
        }
        // Rename terminator condition
        let succ = match &self.successors {
            Some(Successor::Conditional { num_type, condition, to_then, to_else }) => {
                let mut c = condition.duplicate();
                rename_in_expression(&mut c, rename);
                Some(Successor::Conditional { num_type: *num_type, condition: c, to_then: *to_then, to_else: *to_else })
            },
            Some(Successor::Unconditional { to }) => Some(Successor::Unconditional { to: *to }),
            None => None,
        };
        self.phi_functions = phis;
        self.statements = kept;
        self.successors = succ;
    }
}

// ---------------------------------------------------------------------------
// Numeric types of variables
// ---------------------------------------------------------------------------

/// The type information that can be derived directly from a single statement.
pub enum StatementType {
    /// The output type is fully determined by the instruction.
    Known(NumericType),
    /// The statement is an identity copy `x = y`; its type equals that of `y`.
    CopyOf(String),
}

pub enum SpecStatementType {
    Known(NumericType),
    CopyOf(Seq<char>),
}

impl View for StatementType {
    type V = SpecStatementType;

    open spec fn view(&self) -> SpecStatementType {
        match self {
            StatementType::Known(t) => SpecStatementType::Known(*t),
            StatementType::CopyOf(v) => SpecStatementType::CopyOf(v@),
        }
    }
}

/// The operators without an explicit type that nonetheless yield an Integer.
pub open spec fn integer_query(op: Operator) -> bool {
    ||| op == Operator::GetTemplateId
    ||| op == Operator::GetTemplateSignalPosition
    ||| op == Operator::GetTemplateSignalSize
    ||| op == Operator::GetTemplateSignalDim
    ||| op == Operator::GetTemplateSignalType
    ||| op == Operator::GetBusSignalPos
    ||| op == Operator::GetBusSignalSize
    ||| op == Operator::GetBusSignalDim
    ||| op == Operator::GetBusSignalType
}

/// The type of a statement's output as far as the statement alone tells it.
pub open spec fn spec_output_type(s: SpecStatement) -> Option<SpecStatementType> {
    if s.output.is_none() {
        None
    } else if s.num_type.is_some() {
        Some(SpecStatementType::Known(s.num_type.unwrap()))
    } else {
        match s.operator {
            Some(op) => if integer_query(op) {
                Some(SpecStatementType::Known(NumericType::Integer))
            } else {
                Some(SpecStatementType::Known(NumericType::FiniteField))
            },
            None => if s.operands.len() == 0 {
                None
            } else {
                match s.operands[0] {
                    SpecExpression::Atomic(SpecAtomic::Constant(SpecConstant::FF(_, _))) => Some(
                        SpecStatementType::Known(NumericType::FiniteField),
                    ),
                    SpecExpression::Atomic(SpecAtomic::Constant(SpecConstant::I64(_))) => Some(
                        SpecStatementType::Known(NumericType::Integer),
                    ),
                    SpecExpression::Atomic(SpecAtomic::Variable(v)) => Some(SpecStatementType::CopyOf(v)),
                    _ => None,
                }
            },
        }
    }
}

fn is_integer_query(op: Operator) -> (r: bool)
    ensures
        r == integer_query(op),
{
    match op {
        Operator::GetTemplateId | Operator::GetTemplateSignalPosition | Operator::GetTemplateSignalSize
        | Operator::GetTemplateSignalDim | Operator::GetTemplateSignalType | Operator::GetBusSignalPos
        | Operator::GetBusSignalSize | Operator::GetBusSignalDim | Operator::GetBusSignalType => true,
        _ => false,
    }
}

/// Determine the numeric type of a statement's output from the statement alone,
/// mirroring the typing rules of the CVM.
pub fn statement_output_type(stmt: &Statement) -> (r: Option<StatementType>)
    ensures
        match r {
            Some(t) => spec_output_type(stmt@) == Some(t@),
            None => spec_output_type(stmt@).is_none(),
        },
{
    if stmt.output.is_none() {
        return None;
    }
    if let Some(t) = stmt.num_type {
        return Some(StatementType::Known(t));
    }
    match stmt.value.operator {
        Some(op) => {
            if is_integer_query(op) {
                Some(StatementType::Known(NumericType::Integer))
            } else {
                Some(StatementType::Known(NumericType::FiniteField))
            }
        },
        None => {
            if stmt.value.operands.len() == 0 {
                return None;
            }
            proof {
                assert(stmt@.operands[0] == stmt.value.operands@[0]@);
            }
            match &stmt.value.operands[0] {
                Expression::Atomic(Atomic::Constant(ConstantType::FF(_))) => Some(
                    StatementType::Known(NumericType::FiniteField),
                ),
                Expression::Atomic(Atomic::Constant(ConstantType::I64(_))) => Some(
                    StatementType::Known(NumericType::Integer),
                ),
                Expression::Atomic(Atomic::Variable(v)) => Some(StatementType::CopyOf(v.clone())),
                _ => None,
            }
        },
    }
}

/// A variable's numeric type: the one recorded for it, else FiniteField.
pub open spec fn spec_type_of(var: Seq<char>, types: Map<Seq<char>, NumericType>) -> NumericType {
    if types.contains_key(var) {
        types[var]
    } else {
        NumericType::FiniteField
    }
}

/// Look up a variable's numeric type, defaulting to FiniteField if it could not be
/// inferred (should not happen for well-typed input).
pub fn type_of(var: &str, var_type: &NameMap<NumericType>) -> (t: NumericType)
    requires
        var_type.wf(),
    ensures
        t == spec_type_of(var@, var_type@),
{
    match var_type.get(var) {
        Some(t) => *t,
        None => NumericType::FiniteField,
    }
}

// ---------------------------------------------------------------------------
// Colors
// ---------------------------------------------------------------------------

/// Color `i` may hold a variable of type `t`: it is not reserved for the other type.
pub open spec fn compatible(color_type: Seq<Option<NumericType>>, i: int, t: NumericType) -> bool {
    i >= color_type.len() || color_type[i].is_none() || color_type[i] == Some(t)
}

/// The reservation table after color `c` is reserved for `t`.
pub open spec fn reserved(color_type: Seq<Option<NumericType>>, c: int, t: NumericType) -> Seq<Option<NumericType>> {
    Seq::new(
        if color_type.len() <= c { (c + 1) as nat } else { color_type.len() },
        |i: int| if i == c { Some(t) } else if i < color_type.len() { color_type[i] } else { None },
    )
}

/// Reserve color index `c` for `var_type`, growing the reservation table as needed.
pub fn reserve_color(color_type: &mut Vec<Option<NumericType>>, c: usize, var_type: &NumericType)
    requires
        c < usize::MAX,
    ensures
        final(color_type)@ == reserved(old(color_type)@, c as int, *var_type),
{
    while color_type.len() <= c
        invariant
            c < usize::MAX,
            forall|i: int| 0 <= i < old(color_type)@.len() ==> #[trigger] color_type@[i] == old(color_type)@[i],
            forall|i: int| old(color_type)@.len() <= i < color_type@.len() ==> #[trigger] color_type@[i] == None::<NumericType>,
            old(color_type)@.len() <= color_type@.len(),
            old(color_type)@.len() <= c ==> color_type@.len() <= c + 1,
            old(color_type)@.len() > c ==> color_type@.len() == old(color_type)@.len(),
        decreases c + 1 - color_type@.len(),
    {
        color_type.push(None);
    }
    color_type.set(c, Some(*var_type));
    proof {
        assert(color_type@ =~= reserved(old(color_type)@, c as int, *var_type));
    }
}

/// Choose the first available color compatible with `var_type`. A color is compatible
/// when it has not yet been reserved for the other type. If none is available, extend
/// the palette with the first color beyond it that is compatible. The chosen color is
/// (permanently) reserved for `var_type`, so the two types never share a color.
pub fn choose_color(
    available: &mut Vec<bool>,
    num_colors: &mut usize,
    var_type: &NumericType,
    color_type: &mut Vec<Option<NumericType>>,
) -> (c: usize)
    requires
        old(available)@.len() < usize::MAX - 1,
        old(color_type)@.len() < usize::MAX - 1,
    ensures
        compatible(old(color_type)@, c as int, *var_type),
        c < old(available)@.len() ==> {
            &&& old(available)@[c as int]
            &&& final(available)@ == old(available)@
            &&& *final(num_colors) == if c >= *old(num_colors) { (c + 1) as usize } else { *old(num_colors) }
        },
        c >= old(available)@.len() ==> {
            &&& final(available)@.len() == c + 1
            &&& forall|i: int| 0 <= i < old(available)@.len() ==> #[trigger] final(available)@[i] == old(available)@[i]
            &&& forall|i: int| old(available)@.len() <= i <= c ==> #[trigger] final(available)@[i]
            &&& forall|i: int| old(available)@.len() <= i < c ==> !compatible(old(color_type)@, i, *var_type)
            &&& *final(num_colors) == c + 1
        },
        c < usize::MAX - 1,
        c <= old(available)@.len() || c <= old(color_type)@.len(),
        forall|i: int| 0 <= i < c && i < old(available)@.len() ==> !(old(available)@[i] && compatible(old(color_type)@, i, *var_type)),
        final(color_type)@ == reserved(old(color_type)@, c as int, *var_type),
{
    let mut i: usize = 0;
    while i < available.len()
        invariant
            available@ == old(available)@,
            color_type@ == old(color_type)@,
            *num_colors == *old(num_colors),
            old(available)@.len() < usize::MAX - 1,
            old(color_type)@.len() < usize::MAX - 1,
            i <= available@.len(),
            forall|j: int| 0 <= j < i ==> !(old(available)@[j] && compatible(old(color_type)@, j, *var_type)),
        decreases available@.len() - i,
    {
        if available[i] {
            if is_compatible(color_type, i, var_type) {
                if i >= *num_colors {
                    *num_colors = i + 1;
                }
                reserve_color(color_type, i, var_type);
                return i;
            }
        }
        i = i + 1;
    }
    // Extend palette
    let mut c = available.len();
    available.push(true);
    while !is_compatible(color_type, c, var_type)
        invariant
            available@.len() == c + 1,
            old(available)@.len() <= c,
            c <= color_type@.len() || c == old(available)@.len(),
            color_type@ == old(color_type)@,
            old(color_type)@.len() < usize::MAX - 1,
            old(available)@.len() < usize::MAX - 1,
            forall|j: int| 0 <= j < old(available)@.len() ==> #[trigger] available@[j] == old(available)@[j],
            forall|j: int| old(available)@.len() <= j <= c ==> #[trigger] available@[j],
            forall|j: int| old(available)@.len() <= j < c ==> !compatible(old(color_type)@, j, *var_type),
        decreases color_type@.len() - c,
    {
        c = c + 1;
        available.push(true);
    }
    *num_colors = c + 1;
    reserve_color(color_type, c, var_type);
    c
}

/// Whether color `i` may hold a variable of type `t`.
fn is_compatible(color_type: &Vec<Option<NumericType>>, i: usize, t: &NumericType) -> (r: bool)
    ensures
        r == compatible(color_type@, i as int, *t),
{
    if i < color_type.len() {
        match color_type[i] {
            Some(u) => u == *t,
            None => true,
        }
    } else {
        true
    }
}

pub open spec fn is_known(t: Option<SpecStatementType>) -> bool {
    t matches Some(SpecStatementType::Known(_))
}

/// `x` is the output of a φ-function or of a statement of some block.
pub open spec fn defined_somewhere(blocks: Seq<BasicBlock>, x: Seq<char>) -> bool {
    exists|b: int, k: int|
        #![trigger blocks[b].phi_functions@[k]]
        #![trigger blocks[b].statements@[k]]
        0 <= b < blocks.len() && ((0 <= k < blocks[b].phi_functions@.len() && blocks[b].phi_functions@[k].output@ == x) || (0
            <= k < blocks[b].statements@.len() && blocks[b].statements@[k]@.output == Some(x)))
}

proof fn lemma_difference_insert(c: Set<Seq<char>>, d: Set<Seq<char>>, k: Seq<char>)
    requires
        c.finite(),
        c.contains(k),
        !d.contains(k),
    ensures
        c.difference(d.insert(k)).len() + 1 == c.difference(d).len(),
{
    assert(c.difference(d.insert(k)) =~= c.difference(d).remove(k));
    assert(c.difference(d).contains(k));
}

/// The first source among `srcs` whose type is known.
fn first_typed(srcs: &Vec<String>, types: &NameMap<NumericType>) -> (r: Option<NumericType>)
    requires
        types.wf(),
    ensures
        match r {
            Some(t) => exists|i: int| 0 <= i < srcs@.len() && types@.contains_key(#[trigger] srcs@[i]@) && types@[srcs@[i]@] == t,
            None => forall|i: int| 0 <= i < srcs@.len() ==> !types@.contains_key(#[trigger] srcs@[i]@),
        },
{
    let mut i: usize = 0;
    while i < srcs.len()
        invariant
            types.wf(),
            i <= srcs@.len(),
            forall|j: int| 0 <= j < i ==> !types@.contains_key(#[trigger] srcs@[j]@),
        decreases srcs@.len() - i,
    {
        if let Some(t) = types.get(srcs[i].as_str()) {
            return Some(*t);
        }
        i = i + 1;
    }
    None
}

/// Some statement of the blocks defines `x` with the known type `t`.
pub open spec fn known_defined_as(blocks: Seq<BasicBlock>, x: Seq<char>, t: NumericType) -> bool {
    exists|b: int, k: int|
        #![trigger blocks[b].statements@[k]]
        0 <= b < blocks.len() && 0 <= k < blocks[b].statements@.len() && blocks[b].statements@[k]@.output == Some(x)
            && spec_output_type(blocks[b].statements@[k]@) == Some(SpecStatementType::Known(t))
}

/// Some statement of the blocks defines `x` with a known type.
pub open spec fn known_defined(blocks: Seq<BasicBlock>, x: Seq<char>) -> bool {
    exists|t: NumericType| #[trigger] known_defined_as(blocks, x, t)
}

/// Some statement of the blocks defines `x` as a copy of `src`.
pub open spec fn copy_def(blocks: Seq<BasicBlock>, x: Seq<char>, src: Seq<char>) -> bool {
    exists|b: int, k: int|
        #![trigger blocks[b].statements@[k]]
        0 <= b < blocks.len() && 0 <= k < blocks[b].statements@.len() && blocks[b].statements@[k]@.output == Some(x)
            && spec_output_type(blocks[b].statements@[k]@) == Some(SpecStatementType::CopyOf(src))
}

/// Some φ-function of the blocks defines `x` and has `src` among its operands.
pub open spec fn phi_def(blocks: Seq<BasicBlock>, x: Seq<char>, src: Seq<char>) -> bool {
    exists|b: int, k: int, q: int|
        #![trigger blocks[b].phi_functions@[k].possibilities@[q]]
        0 <= b < blocks.len() && 0 <= k < blocks[b].phi_functions@.len() && 0 <= q
            < blocks[b].phi_functions@[k].possibilities@.len() && blocks[b].phi_functions@[k].output@ == x
            && blocks[b].phi_functions@[k].possibilities@[q].variable@ == src
}

/// The type given to `x` is that of a typed statement defining `x`, or the type of
/// the source of a copy, or of an operand of a φ-function, that defines `x`.
pub open spec fn type_justified(blocks: Seq<BasicBlock>, types: Map<Seq<char>, NumericType>, x: Seq<char>) -> bool {
    ||| known_defined_as(blocks, x, types[x])
    ||| exists|src: Seq<char>|
        #![trigger copy_def(blocks, x, src)]
        #![trigger phi_def(blocks, x, src)]
        (copy_def(blocks, x, src) || phi_def(blocks, x, src)) && types.contains_key(src) && types[src] == types[x]
}

/// `types` types the variables of the blocks as their definitions ask: the output of
/// every statement of known type is typed, the type of each typed variable is
/// justified by a definition of it, and a copy or φ-function whose source is typed
/// has a typed output.
pub open spec fn graph_typing(blocks: Seq<BasicBlock>, types: Map<Seq<char>, NumericType>) -> bool {
    &&& forall|b: int, k: int|
        0 <= b < blocks.len() && 0 <= k < blocks[b].statements@.len() && is_known(#[trigger] spec_output_type(blocks[b].statements@[k]@))
            ==> types.contains_key(blocks[b].statements@[k]@.output.unwrap())
    &&& forall|x: Seq<char>| #[trigger] types.contains_key(x) ==> type_justified(blocks, types, x)
    &&& forall|x: Seq<char>, src: Seq<char>| #[trigger] copy_def(blocks, x, src) && types.contains_key(src) ==> types.contains_key(x)
    &&& forall|x: Seq<char>, src: Seq<char>| #[trigger] phi_def(blocks, x, src) && types.contains_key(src) ==> types.contains_key(x)
}

spec fn is_copy_type(t: Option<SpecStatementType>) -> bool {
    t matches Some(SpecStatementType::CopyOf(_))
}

spec fn listed_copy(copies: Seq<(String, String)>, x: Seq<char>, src: Seq<char>) -> bool {
    exists|i: int| 0 <= i < copies.len() && #[trigger] copies[i].0@ == x && copies[i].1@ == src
}

spec fn listed_phi(phis: Seq<(String, Vec<String>)>, x: Seq<char>, src: Seq<char>) -> bool {
    exists|i: int, r: int| 0 <= i < phis.len() && 0 <= r < phis[i].1@.len() && #[trigger] phis[i].0@ == x && #[trigger] phis[i].1@[r]@ == src
}

spec fn copies_closed(copies: Seq<(String, String)>, types: Map<Seq<char>, NumericType>, upto: int) -> bool {
    forall|j: int| 0 <= j < upto ==> types.contains_key(#[trigger] copies[j].0@) || !types.contains_key(copies[j].1@)
}

spec fn phis_closed(phis: Seq<(String, Vec<String>)>, types: Map<Seq<char>, NumericType>, upto: int) -> bool {
    forall|j: int, r: int|
        0 <= j < upto && 0 <= r < phis[j].1@.len() ==> types.contains_key(phis[j].0@) || !types.contains_key(#[trigger] phis[j].1@[r]@)
}

/// Compute the numeric type (Integer / FiniteField) of every SSA variable defined in
/// the CFG. The type of a defined variable is read off its defining instruction; for
/// identity copies (`x = y`) and phi functions the type is inherited from the source
/// operands via a fixpoint, since those depend on other variables.
pub fn compute_variable_types(blocks: &Vec<BasicBlock>) -> (types: NameMap<NumericType>)
    ensures
        types.wf(),
        forall|x: Seq<char>| #[trigger] types@.contains_key(x) ==> defined_somewhere(blocks@, x),
        forall|b: int, k: int|
            0 <= b < blocks@.len() && 0 <= k < blocks@[b].statements@.len() && is_known(#[trigger] spec_output_type(blocks@[b].statements@[k]@)) ==> types@.contains_key(blocks@[b].statements@[k]@.output.unwrap()),
        forall|x: Seq<char>| #[trigger] types@.contains_key(x) && known_defined(blocks@, x) ==> known_defined_as(blocks@, x, types@[x]),
        forall|x: Seq<char>| #[trigger] types@.contains_key(x) ==> type_justified(blocks@, types@, x),
        forall|x: Seq<char>, src: Seq<char>| #[trigger] copy_def(blocks@, x, src) && types@.contains_key(src) ==> types@.contains_key(x),
        forall|x: Seq<char>, src: Seq<char>| #[trigger] phi_def(blocks@, x, src) && types@.contains_key(src) ==> types@.contains_key(x),
        graph_typing(blocks@, types@),
{
    let mut types: NameMap<NumericType> = NameMap::new();
    // (output, source) pairs for identity copies, resolved by propagation.
    let mut copies: Vec<(String, String)> = Vec::new();
    // (output, sources) for phi functions, resolved by propagation.
    let mut phis: Vec<(String, Vec<String>)> = Vec::new();
    let mut b: usize = 0;
    while b < blocks.len()
        invariant
            types.wf(),
            b <= blocks@.len(),
            forall|x: Seq<char>| #[trigger] types@.contains_key(x) ==> defined_somewhere(blocks@, x),
            forall|i: int| 0 <= i < copies@.len() ==> defined_somewhere(blocks@, (#[trigger] copies@[i]).0@),
            forall|i: int| 0 <= i < phis@.len() ==> defined_somewhere(blocks@, (#[trigger] phis@[i]).0@),
            forall|bb: int, k: int|
                0 <= bb < b && 0 <= k < blocks@[bb].statements@.len() && is_known(#[trigger] spec_output_type(blocks@[bb].statements@[k]@)) ==> types@.contains_key(blocks@[bb].statements@[k]@.output.unwrap()),
            forall|x: Seq<char>| #[trigger] types@.contains_key(x) ==> known_defined_as(blocks@, x, types@[x]),
            forall|i: int| 0 <= i < copies@.len() ==> copy_def(blocks@, (#[trigger] copies@[i]).0@, copies@[i].1@),
            forall|i: int, r: int| 0 <= i < phis@.len() && 0 <= r < phis@[i].1@.len() ==> phi_def(blocks@, phis@[i].0@, #[trigger] phis@[i].1@[r]@),
            forall|bb: int, kk: int|
                0 <= bb < b && 0 <= kk < blocks@[bb].statements@.len() && (#[trigger] blocks@[bb].statements@[kk])@.output is Some
                    && is_copy_type(spec_output_type(blocks@[bb].statements@[kk]@)) ==> listed_copy(
                    copies@,
                    blocks@[bb].statements@[kk]@.output.unwrap(),
                    spec_output_type(blocks@[bb].statements@[kk]@).unwrap()->CopyOf_0,
                ),
            forall|bb: int, kk: int, q: int|
                0 <= bb < b && 0 <= kk < blocks@[bb].phi_functions@.len() && 0 <= q < blocks@[bb].phi_functions@[kk].possibilities@.len()
                    ==> listed_phi(phis@, blocks@[bb].phi_functions@[kk].output@, (#[trigger] blocks@[bb].phi_functions@[kk].possibilities@[q]).variable@),
        decreases blocks@.len() - b,
    {
        let block = &blocks[b];
        let mut k: usize = 0;
        while k < block.phi_functions.len()
            invariant
                b < blocks@.len(),
                *block == blocks@[b as int],
                k <= block.phi_functions@.len(),
                forall|i: int| 0 <= i < phis@.len() ==> defined_somewhere(blocks@, (#[trigger] phis@[i]).0@),
                forall|i: int, r: int| 0 <= i < phis@.len() && 0 <= r < phis@[i].1@.len() ==> phi_def(blocks@, phis@[i].0@, #[trigger] phis@[i].1@[r]@),
                forall|bb: int, kk: int, q: int|
                0 <= bb < b && 0 <= kk < blocks@[bb].phi_functions@.len() && 0 <= q < blocks@[bb].phi_functions@[kk].possibilities@.len()
                    ==> listed_phi(phis@, blocks@[bb].phi_functions@[kk].output@, (#[trigger] blocks@[bb].phi_functions@[kk].possibilities@[q]).variable@),
                forall|kk: int, q: int|
                    0 <= kk < k && 0 <= q < blocks@[b as int].phi_functions@[kk].possibilities@.len() ==> listed_phi(
                        phis@,
                        blocks@[b as int].phi_functions@[kk].output@,
                        (#[trigger] blocks@[b as int].phi_functions@[kk].possibilities@[q]).variable@,
                    ),
            decreases block.phi_functions@.len() - k,
        {
            let phi = &block.phi_functions[k];
            let mut srcs: Vec<String> = Vec::new();
            let mut q: usize = 0;
            while q < phi.possibilities.len()
                invariant
                    q <= phi.possibilities@.len(),
                    srcs@.len() == q,
                    forall|r: int| 0 <= r < q ==> (#[trigger] srcs@[r])@ == phi.possibilities@[r].variable@,
                decreases phi.possibilities@.len() - q,
            {
                srcs.push(phi.possibilities[q].variable.clone());
                q = q + 1;
            }
            let ghost prev_phis = phis@;
            phis.push((phi.output.clone(), srcs));
            proof {
                assert(blocks@[b as int].phi_functions@[k as int].output@ == phi.output@);
                let last = phis@.len() - 1;
                assert(phis@[last].0@ == phi.output@);
                assert forall|i: int, r: int| 0 <= i < phis@.len() && 0 <= r < phis@[i].1@.len() implies phi_def(blocks@, phis@[i].0@, #[trigger] phis@[i].1@[r]@) by {
                    if i == last {
                        assert(blocks@[b as int].phi_functions@[k as int].possibilities@[r].variable@ == phis@[i].1@[r]@);
                    } else {
                        assert(phis@[i] == prev_phis[i]);
                    }
                }
                assert forall|bb: int, kk: int, q: int|
                    0 <= bb < b && 0 <= kk < blocks@[bb].phi_functions@.len() && 0 <= q < blocks@[bb].phi_functions@[kk].possibilities@.len()
                    implies listed_phi(phis@, blocks@[bb].phi_functions@[kk].output@, (#[trigger] blocks@[bb].phi_functions@[kk].possibilities@[q]).variable@) by {
                    assert(listed_phi(prev_phis, blocks@[bb].phi_functions@[kk].output@, blocks@[bb].phi_functions@[kk].possibilities@[q].variable@));
                    let (i, r) = choose|i: int, r: int| 0 <= i < prev_phis.len() && 0 <= r < prev_phis[i].1@.len() && #[trigger] prev_phis[i].0@ == blocks@[bb].phi_functions@[kk].output@ && #[trigger] prev_phis[i].1@[r]@ == blocks@[bb].phi_functions@[kk].possibilities@[q].variable@;
                    assert(phis@[i] == prev_phis[i]);
                }
                assert forall|kk: int, q: int|
                    0 <= kk < k + 1 && 0 <= q < blocks@[b as int].phi_functions@[kk].possibilities@.len() implies listed_phi(
                        phis@,
                        blocks@[b as int].phi_functions@[kk].output@,
                        (#[trigger] blocks@[b as int].phi_functions@[kk].possibilities@[q]).variable@,
                    ) by {
                    if kk == k {
                        assert(phis@[last].1@[q]@ == blocks@[b as int].phi_functions@[kk].possibilities@[q].variable@);
                    } else {
                        assert(listed_phi(prev_phis, blocks@[b as int].phi_functions@[kk].output@, blocks@[b as int].phi_functions@[kk].possibilities@[q].variable@));
                        let (i, r) = choose|i: int, r: int| 0 <= i < prev_phis.len() && 0 <= r < prev_phis[i].1@.len() && #[trigger] prev_phis[i].0@ == blocks@[b as int].phi_functions@[kk].output@ && #[trigger] prev_phis[i].1@[r]@ == blocks@[b as int].phi_functions@[kk].possibilities@[q].variable@;
                        assert(phis@[i] == prev_phis[i]);
                    }
                }
            }
            k = k + 1;
        }
        let mut k: usize = 0;
        while k < block.statements.len()
            invariant
                types.wf(),
                b < blocks@.len(),
                *block == blocks@[b as int],
                k <= block.statements@.len(),
                forall|x: Seq<char>| #[trigger] types@.contains_key(x) ==> defined_somewhere(blocks@, x),
                forall|i: int| 0 <= i < copies@.len() ==> defined_somewhere(blocks@, (#[trigger] copies@[i]).0@),
                forall|bb: int, kk: int|
                    0 <= bb < b && 0 <= kk < blocks@[bb].statements@.len() && is_known(#[trigger] spec_output_type(blocks@[bb].statements@[kk]@)) ==> types@.contains_key(blocks@[bb].statements@[kk]@.output.unwrap()),
                forall|kk: int|
                    0 <= kk < k && is_known(#[trigger] spec_output_type(blocks@[b as int].statements@[kk]@)) ==> types@.contains_key(blocks@[b as int].statements@[kk]@.output.unwrap()),
                forall|x: Seq<char>| #[trigger] types@.contains_key(x) ==> known_defined_as(blocks@, x, types@[x]),
                forall|i: int| 0 <= i < copies@.len() ==> copy_def(blocks@, (#[trigger] copies@[i]).0@, copies@[i].1@),
                forall|bb: int, kk: int|
                0 <= bb < b + 1 && (bb < b || kk < k) && 0 <= kk < blocks@[bb].statements@.len() && (#[trigger] blocks@[bb].statements@[kk])@.output is Some
                    && is_copy_type(spec_output_type(blocks@[bb].statements@[kk]@)) ==> listed_copy(
                    copies@,
                    blocks@[bb].statements@[kk]@.output.unwrap(),
                    spec_output_type(blocks@[bb].statements@[kk]@).unwrap()->CopyOf_0,
                ),
            decreases block.statements@.len() - k,
        {
            let stmt = &block.statements[k];
            if let Some(output) = &stmt.output {
                proof {
                    assert(blocks@[b as int].statements@[k as int]@.output == Some(output@));
                    assert(defined_somewhere(blocks@, output@));
                }
                match statement_output_type(stmt) {
                    Some(StatementType::Known(t)) => {
                        let ghost before = types@;
                        types.insert(output.clone(), t);
                        proof {
                            assert(blocks@[b as int].statements@[k as int] == *stmt);
                            assert(known_defined_as(blocks@, output@, t));
                            assert forall|x: Seq<char>| #[trigger] types@.contains_key(x) implies known_defined_as(blocks@, x, types@[x]) by {
                                if x != output@ {
                                    assert(before.contains_key(x));
                                }
                            }
                        }
                    },
                    Some(StatementType::CopyOf(src)) => {
                        let ghost prev = copies@;
                        let ghost sv = src@;
                        copies.push((output.clone(), src));
                        proof {
                            assert(blocks@[b as int].statements@[k as int] == *stmt);
                            let last = copies@.len() - 1;
                            assert(copies@[last].0@ == output@ && copies@[last].1@ == sv);
                            assert(copy_def(blocks@, output@, sv));
                            assert forall|i: int| 0 <= i < copies@.len() implies copy_def(blocks@, (#[trigger] copies@[i]).0@, copies@[i].1@) by {
                                if i != last {
                                    assert(copies@[i] == prev[i]);
                                }
                            }
                            assert forall|bb: int, kk: int|
                                0 <= bb < b + 1 && (bb < b || kk < k + 1) && 0 <= kk < blocks@[bb].statements@.len() && (#[trigger] blocks@[bb].statements@[kk])@.output is Some
                                && is_copy_type(spec_output_type(blocks@[bb].statements@[kk]@)) implies listed_copy(
                                copies@,
                                blocks@[bb].statements@[kk]@.output.unwrap(),
                                spec_output_type(blocks@[bb].statements@[kk]@).unwrap()->CopyOf_0,
                            ) by {
                                if bb == b && kk == k {
                                    assert(copies@[last].0@ == blocks@[bb].statements@[kk]@.output.unwrap());
                                } else {
                                    let x = blocks@[bb].statements@[kk]@.output.unwrap();
                                    let y = spec_output_type(blocks@[bb].statements@[kk]@).unwrap()->CopyOf_0;
                                    assert(listed_copy(prev, x, y));
                                    let i = choose|i: int| 0 <= i < prev.len() && #[trigger] prev[i].0@ == x && prev[i].1@ == y;
                                    assert(copies@[i] == prev[i]);
                                }
                            }
                        }
                    },
                    None => {},
                }
            }
            k = k + 1;
        }
        b = b + 1;
    }
    let ghost outs = copies@.map_values(|c: (String, String)| c.0@) + phis@.map_values(|p: (String, Vec<String>)| p.0@);
    let ghost cand = outs.to_set();
    proof {
        assert forall|x: Seq<char>| cand.contains(x) implies defined_somewhere(blocks@, x) by {
            let i = choose|i: int| 0 <= i < outs.len() && outs[i] == x;
            if i < copies@.len() {
                assert(outs[i] == copies@[i].0@);
            } else {
                assert(outs[i] == phis@[i - copies@.len()].0@);
            }
        }
    }
    let mut changed = true;
    while changed
        invariant
            types.wf(),
            cand.finite(),
            cand == outs.to_set(),
            outs == copies@.map_values(|c: (String, String)| c.0@) + phis@.map_values(|p: (String, Vec<String>)| p.0@),
            forall|x: Seq<char>| #[trigger] types@.contains_key(x) ==> defined_somewhere(blocks@, x),
            forall|x: Seq<char>| cand.contains(x) ==> defined_somewhere(blocks@, x),
            forall|bb: int, kk: int|
                0 <= bb < blocks@.len() && 0 <= kk < blocks@[bb].statements@.len() && is_known(#[trigger] spec_output_type(blocks@[bb].statements@[kk]@)) ==> types@.contains_key(blocks@[bb].statements@[kk]@.output.unwrap()),
            forall|x: Seq<char>| #[trigger] types@.contains_key(x) && known_defined(blocks@, x) ==> known_defined_as(blocks@, x, types@[x]),
            forall|x: Seq<char>| #[trigger] types@.contains_key(x) ==> type_justified(blocks@, types@, x),
            !changed ==> copies_closed(copies@, types@, copies@.len() as int) && phis_closed(phis@, types@, phis@.len() as int),
            forall|i: int| 0 <= i < copies@.len() ==> copy_def(blocks@, (#[trigger] copies@[i]).0@, copies@[i].1@),
            forall|i: int, r: int| 0 <= i < phis@.len() && 0 <= r < phis@[i].1@.len() ==> phi_def(blocks@, phis@[i].0@, #[trigger] phis@[i].1@[r]@),
        decreases cand.difference(types@.dom()).len() + (if changed { 1int } else { 0int }),
    {
        changed = false;
        let ghost start = cand.difference(types@.dom()).len();
        let ghost pass_start = types@;
        let mut i: usize = 0;
        while i < copies.len()
            invariant
                types.wf(),
                cand.finite(),
                cand == outs.to_set(),
                outs == copies@.map_values(|c: (String, String)| c.0@) + phis@.map_values(|p: (String, Vec<String>)| p.0@),
                i <= copies@.len(),
                forall|x: Seq<char>| #[trigger] types@.contains_key(x) ==> type_justified(blocks@, types@, x),
                !changed ==> types@ == pass_start && copies_closed(copies@, types@, i as int),
                forall|i: int| 0 <= i < copies@.len() ==> copy_def(blocks@, (#[trigger] copies@[i]).0@, copies@[i].1@),
                forall|i: int, r: int| 0 <= i < phis@.len() && 0 <= r < phis@[i].1@.len() ==> phi_def(blocks@, phis@[i].0@, #[trigger] phis@[i].1@[r]@),
                forall|x: Seq<char>| #[trigger] types@.contains_key(x) ==> defined_somewhere(blocks@, x),
                forall|x: Seq<char>| cand.contains(x) ==> defined_somewhere(blocks@, x),
                forall|bb: int, kk: int|
                    0 <= bb < blocks@.len() && 0 <= kk < blocks@[bb].statements@.len() && is_known(#[trigger] spec_output_type(blocks@[bb].statements@[kk]@)) ==> types@.contains_key(blocks@[bb].statements@[kk]@.output.unwrap()),
                forall|x: Seq<char>| #[trigger] types@.contains_key(x) && known_defined(blocks@, x) ==> known_defined_as(blocks@, x, types@[x]),
                cand.difference(types@.dom()).len() <= start,
                changed ==> cand.difference(types@.dom()).len() < start,
            decreases copies@.len() - i,
        {
            if !types.contains(copies[i].0.as_str()) {
                if let Some(t) = types.get(copies[i].1.as_str()) {
                    let t = *t;
                    proof {
                        assert(outs[i as int] == copies@[i as int].0@);
                        assert(cand.contains(copies@[i as int].0@));
                        lemma_difference_insert(cand, types@.dom(), copies@[i as int].0@);
                    }
                    let ghost before = types@;
                    types.insert(copies[i].0.clone(), t);
                    proof {
                        assert(types@.dom() =~= before.dom().insert(copies@[i as int].0@));
                        let y = copies@[i as int].0@;
                        assert(!known_defined(blocks@, y)) by {
                            if known_defined(blocks@, y) {
                                let t2 = choose|t2: NumericType| #[trigger] known_defined_as(blocks@, y, t2);
                                let (bb, kk) = choose|bb: int, kk: int|
                                    #![trigger blocks@[bb].statements@[kk]]
                                    0 <= bb < blocks@.len() && 0 <= kk < blocks@[bb].statements@.len() && blocks@[bb].statements@[kk]@.output
                                        == Some(y) && spec_output_type(blocks@[bb].statements@[kk]@) == Some(SpecStatementType::Known(t2));
                                assert(is_known(spec_output_type(blocks@[bb].statements@[kk]@)));
                                assert(before.contains_key(blocks@[bb].statements@[kk]@.output.unwrap()));
                            }
                        }
                        assert forall|x: Seq<char>| #[trigger] types@.contains_key(x) && known_defined(blocks@, x) implies known_defined_as(blocks@, x, types@[x]) by {
                            if x != y {
                                assert(before.contains_key(x));
                            }
                        }
                        let src = copies@[i as int].1@;
                        assert(copy_def(blocks@, y, src));
                        assert(before.contains_key(src) && before[src] == t);
                        lemma_justified_insert(blocks@, before, types@, y, t, src);
                    }
                    changed = true;
                }
            }
            proof {
                assert forall|j: int| 0 <= j < i + 1 implies (!changed ==> types@.contains_key(#[trigger] copies@[j].0@) || !types@.contains_key(copies@[j].1@)) by {
                }
            }
            i = i + 1;
        }
        let mut i: usize = 0;
        while i < phis.len()
            invariant
                types.wf(),
                cand.finite(),
                cand == outs.to_set(),
                outs == copies@.map_values(|c: (String, String)| c.0@) + phis@.map_values(|p: (String, Vec<String>)| p.0@),
                i <= phis@.len(),
                forall|x: Seq<char>| #[trigger] types@.contains_key(x) ==> type_justified(blocks@, types@, x),
                !changed ==> types@ == pass_start && copies_closed(copies@, types@, copies@.len() as int) && phis_closed(phis@, types@, i as int),
                forall|i: int| 0 <= i < copies@.len() ==> copy_def(blocks@, (#[trigger] copies@[i]).0@, copies@[i].1@),
                forall|i: int, r: int| 0 <= i < phis@.len() && 0 <= r < phis@[i].1@.len() ==> phi_def(blocks@, phis@[i].0@, #[trigger] phis@[i].1@[r]@),
                forall|x: Seq<char>| #[trigger] types@.contains_key(x) ==> defined_somewhere(blocks@, x),
                forall|x: Seq<char>| cand.contains(x) ==> defined_somewhere(blocks@, x),
                forall|bb: int, kk: int|
                    0 <= bb < blocks@.len() && 0 <= kk < blocks@[bb].statements@.len() && is_known(#[trigger] spec_output_type(blocks@[bb].statements@[kk]@)) ==> types@.contains_key(blocks@[bb].statements@[kk]@.output.unwrap()),
                forall|x: Seq<char>| #[trigger] types@.contains_key(x) && known_defined(blocks@, x) ==> known_defined_as(blocks@, x, types@[x]),
                cand.difference(types@.dom()).len() <= start,
                changed ==> cand.difference(types@.dom()).len() < start,
            decreases phis@.len() - i,
        {
            if !types.contains(phis[i].0.as_str()) {
                if let Some(t) = first_typed(&phis[i].1, &types) {
                    proof {
                        assert(outs[copies@.len() + i] == phis@[i as int].0@);
                        assert(cand.contains(phis@[i as int].0@));
                        lemma_difference_insert(cand, types@.dom(), phis@[i as int].0@);
                    }
                    let ghost before = types@;
                    types.insert(phis[i].0.clone(), t);
                    proof {
                        assert(types@.dom() =~= before.dom().insert(phis@[i as int].0@));
                        let y = phis@[i as int].0@;
                        assert(!known_defined(blocks@, y)) by {
                            if known_defined(blocks@, y) {
                                let t2 = choose|t2: NumericType| #[trigger] known_defined_as(blocks@, y, t2);
                                let (bb, kk) = choose|bb: int, kk: int|
                                    #![trigger blocks@[bb].statements@[kk]]
                                    0 <= bb < blocks@.len() && 0 <= kk < blocks@[bb].statements@.len() && blocks@[bb].statements@[kk]@.output
                                        == Some(y) && spec_output_type(blocks@[bb].statements@[kk]@) == Some(SpecStatementType::Known(t2));
                                assert(is_known(spec_output_type(blocks@[bb].statements@[kk]@)));
                                assert(before.contains_key(blocks@[bb].statements@[kk]@.output.unwrap()));
                            }
                        }
                        assert forall|x: Seq<char>| #[trigger] types@.contains_key(x) && known_defined(blocks@, x) implies known_defined_as(blocks@, x, types@[x]) by {
                            if x != y {
                                assert(before.contains_key(x));
                            }
                        }
                        let r = choose|r: int| 0 <= r < phis@[i as int].1@.len() && before.contains_key(#[trigger] phis@[i as int].1@[r]@) && before[phis@[i as int].1@[r]@] == t;
                        let src = phis@[i as int].1@[r]@;
                        assert(phi_def(blocks@, y, src));
                        lemma_justified_insert(blocks@, before, types@, y, t, src);
                    }
                    changed = true;
                }
            }
            i = i + 1;
        }
    }
    proof {
        assert forall|x: Seq<char>, src: Seq<char>| #[trigger] copy_def(blocks@, x, src) && types@.contains_key(src) implies types@.contains_key(x) by {
            let (b, k) = choose|b: int, k: int|
                #![trigger blocks@[b].statements@[k]]
                0 <= b < blocks@.len() && 0 <= k < blocks@[b].statements@.len() && blocks@[b].statements@[k]@.output == Some(x)
                    && spec_output_type(blocks@[b].statements@[k]@) == Some(SpecStatementType::CopyOf(src));
            assert(is_copy_type(spec_output_type(blocks@[b].statements@[k]@)));
            assert(listed_copy(copies@, x, src));
            let i = choose|i: int| 0 <= i < copies@.len() && #[trigger] copies@[i].0@ == x && copies@[i].1@ == src;
            assert(types@.contains_key(copies@[i].0@) || !types@.contains_key(copies@[i].1@));
        }
        assert forall|x: Seq<char>, src: Seq<char>| #[trigger] phi_def(blocks@, x, src) && types@.contains_key(src) implies types@.contains_key(x) by {
            let (b, k, q) = choose|b: int, k: int, q: int|
                #![trigger blocks@[b].phi_functions@[k].possibilities@[q]]
                0 <= b < blocks@.len() && 0 <= k < blocks@[b].phi_functions@.len() && 0 <= q
                    < blocks@[b].phi_functions@[k].possibilities@.len() && blocks@[b].phi_functions@[k].output@ == x
                    && blocks@[b].phi_functions@[k].possibilities@[q].variable@ == src;
            assert(listed_phi(phis@, x, src));
            let (i, r) = choose|i: int, r: int| 0 <= i < phis@.len() && 0 <= r < phis@[i].1@.len() && #[trigger] phis@[i].0@ == x && #[trigger] phis@[i].1@[r]@ == src;
            assert(types@.contains_key(phis@[i].0@) || !types@.contains_key(phis@[i].1@[r]@));
        }
    }
    types
}

/// Giving `y` the type `t` of a source `src` of a copy or φ-function that defines
/// `y` keeps every typed variable justified.
proof fn lemma_justified_insert(
    blocks: Seq<BasicBlock>,
    before: Map<Seq<char>, NumericType>,
    after: Map<Seq<char>, NumericType>,
    y: Seq<char>,
    t: NumericType,
    src: Seq<char>,
)
    requires
        forall|x: Seq<char>| #[trigger] before.contains_key(x) ==> type_justified(blocks, before, x),
        !before.contains_key(y),
        after == before.insert(y, t),
        copy_def(blocks, y, src) || phi_def(blocks, y, src),
        before.contains_key(src),
        before[src] == t,
    ensures
        forall|x: Seq<char>| #[trigger] after.contains_key(x) ==> type_justified(blocks, after, x),
{
    assert forall|x: Seq<char>| #[trigger] after.contains_key(x) implies type_justified(blocks, after, x) by {
        if x == y {
            assert(after.contains_key(src) && after[src] == after[y]);
        } else {
            assert(type_justified(blocks, before, x));
            if !known_defined_as(blocks, x, before[x]) {
                let s2 = choose|s2: Seq<char>|
                    #![trigger copy_def(blocks, x, s2)]
                    #![trigger phi_def(blocks, x, s2)]
                    (copy_def(blocks, x, s2) || phi_def(blocks, x, s2)) && before.contains_key(s2) && before[s2] == before[x];
                assert(s2 != y);
                assert(after.contains_key(s2) && after[s2] == after[x]);
            }
        }
    }
}

// ---------------------------------------------------------------------------
// Dominance tree
// ---------------------------------------------------------------------------

/// Build children list for the dominance tree.
pub fn build_dom_children(idom: &Vec<Option<usize>>, n: usize, entry: usize) -> (children: Vec<Vec<usize>>)
    requires
        idom@.len() == n,
        idom_ok(idom@),
    ensures
        children@.len() == n,
        forall|p: int, c: usize| 0 <= p < n ==> ((#[trigger] children@[p]@.contains(c)) <==> (c < n && c != entry
            && idom@[c as int] == Some(p as usize) && p != c)),
        forall|p: int, i: int, j: int| 0 <= p < n && 0 <= i < j < children@[p]@.len() ==> #[trigger] children@[p]@[i]
            < #[trigger] children@[p]@[j],
{
    let mut children: Vec<Vec<usize>> = Vec::new();
    let mut i: usize = 0;
    while i < n
        invariant
            i <= n,
            children@.len() == i,
            forall|k: int| 0 <= k < i ==> (#[trigger] children@[k])@.len() == 0,
        decreases n - i,
    {
        children.push(Vec::new());
        i = i + 1;
    }
    let mut b: usize = 0;
    while b < n
        invariant
            idom@.len() == n,
            idom_ok(idom@),
            b <= n,
            children@.len() == n,
            forall|p: int, c: usize| 0 <= p < n ==> ((#[trigger] children@[p]@.contains(c)) <==> (c < b && c != entry
                && idom@[c as int] == Some(p as usize) && p != c)),
            forall|p: int, x: int| 0 <= p < n && 0 <= x < children@[p]@.len() ==> #[trigger] children@[p]@[x] < b,
            forall|p: int, x: int, y: int| 0 <= p < n && 0 <= x < y < children@[p]@.len() ==> #[trigger] children@[p]@[x]
                < #[trigger] children@[p]@[y],
        decreases n - b,
    {
        if b != entry {
            if let Some(parent) = idom[b] {
                if parent != b {
                    proof {
                        assert(idom@[b as int].unwrap() < n);
                    }
                    let ghost c0 = children@;
                    let mut list = children.remove(parent);
                    let ghost l0 = list@;
                    list.push(b);
                    children.insert(parent, list);
                    proof {
                        assert(children@ =~= c0.update(parent as int, list));
                        assert forall|p: int, c: usize| 0 <= p < n implies ((#[trigger] children@[p]@.contains(c)) <==> (c
                            < b + 1 && c != entry && idom@[c as int] == Some(p as usize) && p != c)) by {
                            if p == parent {
                                if children@[p]@.contains(c) && c != b {
                                    let k = choose|k: int| 0 <= k < children@[p]@.len() && children@[p]@[k] == c;
                                    assert(l0[k] == c);
                                    assert(c0[p]@.contains(c));
                                }
                                if c < b && c != entry && idom@[c as int] == Some(p as usize) && p != c {
                                    assert(c0[p]@.contains(c));
                                    let k = choose|k: int| 0 <= k < l0.len() && l0[k] == c;
                                    assert(children@[p]@[k] == c);
                                }
                                if c == b {
                                    assert(children@[p]@[l0.len() as int] == b);
                                }
                            } else {
                                assert(children@[p] == c0[p]);
                            }
                        }
                        assert forall|p: int, x: int| 0 <= p < n && 0 <= x < children@[p]@.len() implies #[trigger] children@[p]@[x] < b + 1 by {
                            if p == parent && x < l0.len() {
                                assert(children@[p]@[x] == c0[p]@[x]);
                            } else if p != parent {
                                assert(children@[p] == c0[p]);
                            }
                        }
                        assert forall|p: int, x: int, y: int| 0 <= p < n && 0 <= x < y < children@[p]@.len() implies #[trigger] children@[p]@[x]
                            < #[trigger] children@[p]@[y] by {
                            if p == parent {
                                assert(children@[p]@[x] == c0[p]@[x]);
                                if y < l0.len() {
                                    assert(children@[p]@[y] == c0[p]@[y]);
                                }
                            } else {
                                assert(children@[p] == c0[p]);
                            }
                        }
                    }
                }
            }
        }
        b = b + 1;
    }
    children
}

// ---------------------------------------------------------------------------
// Last uses
// ---------------------------------------------------------------------------

/// The position that stands for the exit of a block (its terminator and the
/// φ-operands that its successors read from it).
pub const BLOCK_EXIT: usize = usize::MAX;

/// The variables that the φ-functions of the first `s` blocks take from block `p`.
pub open spec fn exit_reads_upto(blocks: Seq<BasicBlock>, p: usize, s: int) -> Set<Seq<char>>
    decreases s,
{
    if s <= 0 {
        Set::empty()
    } else {
        exit_reads_upto(blocks, p, s - 1).union(args_from(blocks[s - 1].phi_functions@, p))
    }
}

/// The variables that the φ-functions of the blocks take from block `p`: they are
/// read at the exit of `p`.
pub open spec fn exit_reads(blocks: Seq<BasicBlock>, p: usize) -> Set<Seq<char>> {
    exit_reads_upto(blocks, p, blocks.len() as int)
}

/// The index of the last of the statements that reads `x`.
pub open spec fn last_read(ss: Seq<Statement>, x: Seq<char>) -> Option<int>
    decreases ss.len(),
{
    if ss.len() == 0 {
        None
    } else if reads_of(ss.last().value.operands@).contains(x) {
        Some(ss.len() - 1)
    } else {
        last_read(ss.drop_last(), x)
    }
}

/// The last use of `x` in a block whose exit reads `exits`: the block exit where
/// the branch condition or the exit reads it, else the last statement that reads it.
pub open spec fn block_last_use(block: BasicBlock, exits: Set<Seq<char>>, x: Seq<char>) -> Option<usize> {
    if cond_reads(block).contains(x) || exits.contains(x) {
        Some(BLOCK_EXIT)
    } else {
        match last_read(block.statements@, x) {
            Some(k) => Some(k as usize),
            None => None,
        }
    }
}

/// The last use of `x` in block `b`.
pub open spec fn last_use(blocks: Seq<BasicBlock>, b: usize, x: Seq<char>) -> Option<usize> {
    block_last_use(blocks[b as int], exit_reads(blocks, b), x)
}

/// Records a use of each variable of `e` at `pos`, the latest so far.
fn record_uses(last: &mut NameMap<usize>, e: &Expression, pos: usize)
    requires
        old(last).wf(),
    ensures
        final(last).wf(),
        forall|x: Seq<char>| #[trigger] final(last)@.contains_key(x) == (old(last)@.contains_key(x) || expr_vars(e@).to_set().contains(x)),
        forall|x: Seq<char>|
            #[trigger] final(last)@.contains_key(x) ==> final(last)@[x] == if expr_vars(e@).to_set().contains(x) {
                pos
            } else {
                old(last)@[x]
            },
{
    let vars = crate::types::get_variable_names(e);
    let ghost vs = expr_vars(e@);
    let ghost m0 = last@;
    let mut i: usize = 0;
    proof {
        assert(first_names(vs, 0) =~= Set::<Seq<char>>::empty());
    }
    while i < vars.len()
        invariant
            last.wf(),
            i <= vars@.len(),
            vars@.map_values(|s: String| s@) == vs,
            forall|x: Seq<char>| #[trigger] last@.contains_key(x) == (m0.contains_key(x) || first_names(vs, i as int).contains(x)),
            forall|x: Seq<char>|
                #[trigger] last@.contains_key(x) ==> last@[x] == if first_names(vs, i as int).contains(x) {
                    pos
                } else {
                    m0[x]
                },
        decreases vars@.len() - i,
    {
        proof {
            assert(vars@.map_values(|s: String| s@)[i as int] == vars@[i as int]@);
            lemma_first_names_step(vs, i as int);
        }
        last.insert(vars[i].clone(), pos);
        i = i + 1;
    }
    proof {
        lemma_first_names_all(vs);
    }
}

/// The variables that the φ-functions of the blocks take from each block.
fn exit_uses_of(blocks: &Vec<BasicBlock>) -> (exits: Vec<NameSet>)
    requires
        links_ok(blocks@),
    ensures
        exits@.len() == blocks@.len(),
        forall|p: int| 0 <= p < blocks@.len() ==> (#[trigger] exits@[p]).wf() && exits@[p]@.dom() == exit_reads(blocks@, p as usize),
{
    let n = blocks.len();
    let mut exit_uses: Vec<NameSet> = Vec::new();
    let mut b: usize = 0;
    while b < n
        invariant
            n == blocks@.len(),
            b <= n,
            exit_uses@.len() == b,
            forall|x: int| 0 <= x < b ==> (#[trigger] exit_uses@[x]).wf() && exit_uses@[x]@.dom() == Set::<Seq<char>>::empty(),
        decreases n - b,
    {
        let e: NameSet = NameMap::new();
        proof {
            assert(e@.dom() =~= Set::<Seq<char>>::empty());
        }
        exit_uses.push(e);
        b = b + 1;
    }
    let mut s: usize = 0;
    while s < n
        invariant
            n == blocks@.len(),
            links_ok(blocks@),
            s <= n,
            exit_uses@.len() == n,
            forall|x: int| 0 <= x < n ==> (#[trigger] exit_uses@[x]).wf() && exit_uses@[x]@.dom() == exit_reads_upto(blocks@, x as usize, s as int),
        decreases n - s,
    {
        let block = &blocks[s];
        let ghost phis = block.phi_functions@;
        proof {
            assert(blocks@[s as int].links_below(n as nat));
            assert(phis.take(0) =~= Seq::<PhiFunction>::empty());
            assert forall|x: int| 0 <= x < n implies (#[trigger] exit_uses@[x])@.dom() == exit_reads_upto(blocks@, x as usize, s as int).union(
                args_from(phis.take(0), x as usize),
            ) by {
                assert(exit_reads_upto(blocks@, x as usize, s as int).union(args_from(phis.take(0), x as usize)) =~= exit_reads_upto(
                    blocks@,
                    x as usize,
                    s as int,
                ));
            }
        }
        let mut k: usize = 0;
        while k < block.phi_functions.len()
            invariant
                n == blocks@.len(),
                s < n,
                *block == blocks@[s as int],
                phis == block.phi_functions@,
                block.links_below(n as nat),
                k <= phis.len(),
                exit_uses@.len() == n,
                forall|x: int| 0 <= x < n ==> (#[trigger] exit_uses@[x]).wf() && exit_uses@[x]@.dom() == exit_reads_upto(blocks@, x as usize, s as int).union(
                    args_from(phis.take(k as int), x as usize),
                ),
            decreases phis.len() - k,
        {
            let phi = &block.phi_functions[k];
            let ghost ps = phi.possibilities@;
            proof {
                assert(ps.take(0) =~= Seq::<PhiPossibility>::empty());
                assert forall|x: int| 0 <= x < n implies (#[trigger] exit_uses@[x])@.dom() == exit_reads_upto(blocks@, x as usize, s as int).union(
                    args_from(phis.take(k as int), x as usize),
                ).union(poss_from(ps.take(0), x as usize)) by {
                    assert(exit_uses@[x]@.dom() =~= exit_uses@[x]@.dom().union(poss_from(ps.take(0), x as usize)));
                }
            }
            let mut q: usize = 0;
            while q < phi.possibilities.len()
                invariant
                    n == blocks@.len(),
                    k < phis.len(),
                    *phi == phis[k as int],
                    ps == phi.possibilities@,
                    block.links_below(n as nat),
                    phis == block.phi_functions@,
                    q <= ps.len(),
                    exit_uses@.len() == n,
                    forall|x: int| 0 <= x < n ==> (#[trigger] exit_uses@[x]).wf() && exit_uses@[x]@.dom() == exit_reads_upto(blocks@, x as usize, s as int).union(
                        args_from(phis.take(k as int), x as usize),
                    ).union(poss_from(ps.take(q as int), x as usize)),
                decreases ps.len() - q,
            {
                let p = phi.possibilities[q].block;
                proof {
                    assert(block.phi_functions@[k as int].possibilities@[q as int].block < n);
                }
                let ghost e0 = exit_uses@;
                let mut set = exit_uses.remove(p);
                add_name(&mut set, &phi.possibilities[q].variable);
                exit_uses.insert(p, set);
                proof {
                    assert(exit_uses@ =~= e0.update(p as int, set));
                    let t = ps.take(q + 1);
                    assert(t.drop_last() =~= ps.take(q as int));
                    assert(t.last() == ps[q as int]);
                    assert forall|x: int| 0 <= x < n implies (#[trigger] exit_uses@[x]).wf() && exit_uses@[x]@.dom() == exit_reads_upto(blocks@, x as usize, s as int).union(
                        args_from(phis.take(k as int), x as usize),
                    ).union(poss_from(ps.take(q + 1), x as usize)) by {
                        if x != p {
                            assert(exit_uses@[x] == e0[x]);
                            assert(poss_from(t, x as usize) == poss_from(ps.take(q as int), x as usize));
                        } else {
                            assert(exit_uses@[x]@.dom() =~= exit_reads_upto(blocks@, x as usize, s as int).union(
                                args_from(phis.take(k as int), x as usize),
                            ).union(poss_from(t, x as usize)));
                        }
                    }
                }
                q = q + 1;
            }
            proof {
                assert(ps.take(ps.len() as int) =~= ps);
                let t = phis.take(k + 1);
                assert(t.drop_last() =~= phis.take(k as int));
                assert(t.last() == phis[k as int]);
                assert forall|x: int| 0 <= x < n implies (#[trigger] exit_uses@[x])@.dom() == exit_reads_upto(blocks@, x as usize, s as int).union(
                    args_from(t, x as usize),
                ) by {
                    assert(exit_uses@[x]@.dom() =~= exit_reads_upto(blocks@, x as usize, s as int).union(args_from(t, x as usize)));
                }
            }
            k = k + 1;
        }
        proof {
            assert(phis.take(phis.len() as int) =~= phis);
            assert forall|x: int| 0 <= x < n implies (#[trigger] exit_uses@[x])@.dom() == exit_reads_upto(blocks@, x as usize, s + 1) by {
                assert(exit_reads_upto(blocks@, x as usize, s + 1) == exit_reads_upto(blocks@, x as usize, s as int).union(
                    args_from(blocks@[s as int].phi_functions@, x as usize),
                ));
            }
        }
        s = s + 1;
    }
    exit_uses
}

/// For each variable used in a block, its last use there.
fn last_uses_in(block: &BasicBlock, exits: &NameSet) -> (last: NameMap<usize>)
    requires
        exits.wf(),
    ensures
        last.wf(),
        forall|x: Seq<char>| #[trigger] last@.contains_key(x) == block_last_use(*block, exits@.dom(), x) is Some,
        forall|x: Seq<char>| #[trigger] last@.contains_key(x) ==> block_last_use(*block, exits@.dom(), x) == Some(last@[x]),
{
    let mut last: NameMap<usize> = NameMap::new();
    let ghost ss = block.statements@;
    proof {
        assert(ss.take(0) =~= Seq::<Statement>::empty());
    }
    // Uses in statements
    let mut k: usize = 0;
    while k < block.statements.len()
        invariant
            last.wf(),
            ss == block.statements@,
            k <= ss.len(),
            forall|x: Seq<char>| #[trigger] last@.contains_key(x) == last_read(ss.take(k as int), x) is Some,
            forall|x: Seq<char>| #[trigger] last@.contains_key(x) ==> last_read(ss.take(k as int), x) == Some(last@[x] as int),
        decreases ss.len() - k,
    {
        let stmt = &block.statements[k];
        let ghost ops = stmt.value.operands@;
        let ghost m0 = last@;
        proof {
            assert(ops.take(0) =~= Seq::<Expression>::empty());
        }
        let mut o: usize = 0;
        while o < stmt.value.operands.len()
            invariant
                last.wf(),
                ss == block.statements@,
                k < ss.len(),
                ops == stmt.value.operands@,
                o <= ops.len(),
                forall|x: Seq<char>| #[trigger] last@.contains_key(x) == (m0.contains_key(x) || reads_of(ops.take(o as int)).contains(x)),
                forall|x: Seq<char>|
                    #[trigger] last@.contains_key(x) ==> last@[x] == if reads_of(ops.take(o as int)).contains(x) {
                        k
                    } else {
                        m0[x]
                    },
            decreases ops.len() - o,
        {
            record_uses(&mut last, &stmt.value.operands[o], k);
            proof {
                let t = ops.take(o + 1);
                assert(t.drop_last() =~= ops.take(o as int));
                assert(t.last() == ops[o as int]);
            }
            o = o + 1;
        }
        proof {
            assert(ops.take(ops.len() as int) =~= ops);
            let t = ss.take(k + 1);
            assert(t.drop_last() =~= ss.take(k as int));
            assert(t.last() == ss[k as int]);
        }
        k = k + 1;
    }
    proof {
        assert(ss.take(ss.len() as int) =~= ss);
    }
    // Uses in terminator condition
    let ghost m1 = last@;
    if let Some(Successor::Conditional { condition, .. }) = &block.successors {
        record_uses(&mut last, condition, BLOCK_EXIT);
    }
    proof {
        assert forall|x: Seq<char>| #[trigger] last@.contains_key(x) == (m1.contains_key(x) || cond_reads(*block).contains(x)) by {}
        assert forall|x: Seq<char>| #[trigger] last@.contains_key(x) ==> last@[x] == if cond_reads(*block).contains(x) {
            BLOCK_EXIT
        } else {
            m1[x]
        } by {}
    }
    // Uses at the exit by the φ-functions of successors
    let ghost m2 = last@;
    let ghost es = exits.entries@;
    proof {
        assert(first_keys(es, 0) =~= Set::<Seq<char>>::empty());
    }
    let mut v: usize = 0;
    while v < exits.entries.len()
        invariant
            last.wf(),
            exits.wf(),
            es == exits.entries@,
            v <= es.len(),
            forall|x: Seq<char>| #[trigger] last@.contains_key(x) == (m2.contains_key(x) || first_keys(es, v as int).contains(x)),
            forall|x: Seq<char>|
                #[trigger] last@.contains_key(x) ==> last@[x] == if first_keys(es, v as int).contains(x) {
                    BLOCK_EXIT
                } else {
                    m2[x]
                },
        decreases es.len() - v,
    {
        proof {
            lemma_first_keys_step(es, v as int);
        }
        last.insert(exits.entries[v].0.clone(), BLOCK_EXIT);
        v = v + 1;
    }
    proof {
        lemma_first_keys_all(*exits);
        assert forall|x: Seq<char>| #[trigger] last@.contains_key(x) == block_last_use(*block, exits@.dom(), x) is Some by {
            if last_read(ss, x) is Some {
                assert(m1.contains_key(x));
            }
        }
        assert forall|x: Seq<char>| #[trigger] last@.contains_key(x) implies block_last_use(*block, exits@.dom(), x) == Some(last@[x]) by {
            if !(cond_reads(*block).contains(x) || exits@.dom().contains(x)) {
                assert(m1.contains_key(x));
                assert(last_read(ss, x) == Some(m1[x] as int));
            }
        }
    }
    last
}

/// The entries of `last` whose variable `live` does not hold, as (position, variable).
fn not_live_entries(last: &NameMap<usize>, live: &NameSet) -> (here: Vec<(usize, String)>)
    requires
        last.wf(),
        live.wf(),
    ensures
        forall|k: int|
            0 <= k < here@.len() ==> last@.contains_key((#[trigger] here@[k]).1@) && last@[here@[k].1@] == here@[k].0
                && !live@.contains_key(here@[k].1@),
        forall|x: Seq<char>| #[trigger] last@.contains_key(x) && !live@.contains_key(x) ==> exists|k: int| 0 <= k < here@.len() && (#[trigger] here@[k]).1@ == x,
        forall|k1: int, k2: int| 0 <= k1 < here@.len() && 0 <= k2 < here@.len() && k1 != k2 ==> (#[trigger] here@[k1]).1@ != (#[trigger] here@[k2]).1@,
{
    let mut here: Vec<(usize, String)> = Vec::new();
    let ghost es = last.entries@;
    let mut e: usize = 0;
    while e < last.entries.len()
        invariant
            last.wf(),
            live.wf(),
            es == last.entries@,
            e <= es.len(),
            forall|k: int|
                0 <= k < here@.len() ==> exists|i: int| 0 <= i < e && (#[trigger] here@[k]) == (es[i].1, es[i].0),
            forall|k: int| 0 <= k < here@.len() ==> !live@.contains_key((#[trigger] here@[k]).1@),
            forall|i: int| 0 <= i < e && !live@.contains_key(#[trigger] es[i].0@) ==> exists|k: int| 0 <= k < here@.len() && (#[trigger] here@[k]).1@ == es[i].0@,
            forall|k1: int, k2: int| 0 <= k1 < here@.len() && 0 <= k2 < here@.len() && k1 != k2 ==> (#[trigger] here@[k1]).1@ != (#[trigger] here@[k2]).1@,
        decreases es.len() - e,
    {
        if !live.contains(last.entries[e].0.as_str()) {
            let ghost h0 = here@;
            let name = last.entries[e].0.clone();
            here.push((last.entries[e].1, name));
            proof {
                assert(here@[h0.len() as int] == (es[e as int].1, es[e as int].0));
                assert forall|k: int| 0 <= k < here@.len() implies exists|i: int| 0 <= i < e + 1 && (#[trigger] here@[k]) == (es[i].1, es[i].0) by {
                    if k < h0.len() {
                        assert(here@[k] == h0[k]);
                    } else {
                        assert(here@[k] == (es[e as int].1, es[e as int].0));
                    }
                }
                assert forall|k: int| 0 <= k < here@.len() implies !live@.contains_key((#[trigger] here@[k]).1@) by {
                    if k < h0.len() {
                        assert(here@[k] == h0[k]);
                    }
                }
                assert forall|i: int| 0 <= i < e + 1 && !live@.contains_key(#[trigger] es[i].0@) implies exists|k: int| 0 <= k < here@.len() && (#[trigger] here@[k]).1@ == es[i].0@ by {
                    if i < e {
                        let k = choose|k: int| 0 <= k < h0.len() && (#[trigger] h0[k]).1@ == es[i].0@;
                        assert(here@[k] == h0[k]);
                    } else {
                        assert(here@[h0.len() as int].1@ == es[i].0@);
                    }
                }
                assert forall|k1: int, k2: int| 0 <= k1 < here@.len() && 0 <= k2 < here@.len() && k1 != k2 implies (#[trigger] here@[k1]).1@ != (#[trigger] here@[k2]).1@ by {
                    if k1 < h0.len() && k2 < h0.len() {
                        assert(here@[k1] == h0[k1] && here@[k2] == h0[k2]);
                    } else if k1 < h0.len() {
                        assert(here@[k1] == h0[k1]);
                        let i = choose|i: int| 0 <= i < e && (#[trigger] h0[k1]) == (es[i].1, es[i].0);
                        assert(es[i].0@ != es[e as int].0@);
                    } else if k2 < h0.len() {
                        assert(here@[k2] == h0[k2]);
                        let i = choose|i: int| 0 <= i < e && (#[trigger] h0[k2]) == (es[i].1, es[i].0);
                        assert(es[i].0@ != es[e as int].0@);
                    }
                }
            }
        }
        e = e + 1;
    }
    proof {
        assert forall|k: int|
            0 <= k < here@.len() implies last@.contains_key((#[trigger] here@[k]).1@) && last@[here@[k].1@] == here@[k].0
                && !live@.contains_key(here@[k].1@) by {
            let i = choose|i: int| 0 <= i < es.len() && (#[trigger] here@[k]) == (es[i].1, es[i].0);
            lemma_seq_map_entry(es, i);
        }
        assert forall|x: Seq<char>| #[trigger] last@.contains_key(x) && !live@.contains_key(x) implies exists|k: int| 0 <= k < here@.len() && (#[trigger] here@[k]).1@ == x by {
            let i = crate::collections::seq_index(es, x);
            assert(es[i].0@ == x);
        }
    }
    here
}

/// For each block, the variables whose last use in the block is at a position,
/// with that position: a statement index, or `BLOCK_EXIT` for the terminator and
/// for the φ-operands that successors read from the block (live-on-edge semantics).
/// A variable that is live out of the block has no last use there.
pub fn compute_last_uses(blocks: &Vec<BasicBlock>, live_out: &Vec<NameSet>) -> (result: Vec<Vec<(usize, String)>>)
    requires
        links_ok(blocks@),
        live_out@.len() == blocks@.len(),
        forall|x: int| 0 <= x < live_out@.len() ==> #[trigger] live_out@[x].wf(),
    ensures
        result@.len() == blocks@.len(),
        forall|b: int, k: int|
            0 <= b < result@.len() && 0 <= k < result@[b]@.len() ==> last_use(blocks@, b as usize, (#[trigger] result@[b]@[k]).1@) == Some(
                result@[b]@[k].0,
            ) && !live_out@[b]@.contains_key(result@[b]@[k].1@),
        forall|b: int, x: Seq<char>|
            0 <= b < result@.len() && #[trigger] last_use(blocks@, b as usize, x) is Some && !live_out@[b]@.contains_key(x)
                ==> exists|k: int| 0 <= k < result@[b]@.len() && (#[trigger] result@[b]@[k]).1@ == x,
        forall|b: int, k1: int, k2: int|
            0 <= b < result@.len() && 0 <= k1 < result@[b]@.len() && 0 <= k2 < result@[b]@.len() && k1 != k2
                ==> (#[trigger] result@[b]@[k1]).1@ != (#[trigger] result@[b]@[k2]).1@,
{
    let n = blocks.len();
    // Phi argument uses: "used" at the exit of the predecessor block.
    let exit_uses = exit_uses_of(blocks);
    let mut result: Vec<Vec<(usize, String)>> = Vec::new();
    let mut b: usize = 0;
    while b < n
        invariant
            n == blocks@.len(),
            b <= n,
            exit_uses@.len() == n,
            forall|p: int| 0 <= p < n ==> (#[trigger] exit_uses@[p]).wf() && exit_uses@[p]@.dom() == exit_reads(blocks@, p as usize),
            live_out@.len() == n,
            forall|x: int| 0 <= x < n ==> #[trigger] live_out@[x].wf(),
            result@.len() == b,
            forall|bb: int, k: int|
                0 <= bb < b && 0 <= k < result@[bb]@.len() ==> last_use(blocks@, bb as usize, (#[trigger] result@[bb]@[k]).1@) == Some(
                    result@[bb]@[k].0,
                ) && !live_out@[bb]@.contains_key(result@[bb]@[k].1@),
            forall|bb: int, x: Seq<char>|
                0 <= bb < b && #[trigger] last_use(blocks@, bb as usize, x) is Some && !live_out@[bb]@.contains_key(x)
                    ==> exists|k: int| 0 <= k < result@[bb]@.len() && (#[trigger] result@[bb]@[k]).1@ == x,
            forall|bb: int, k1: int, k2: int|
                0 <= bb < b && 0 <= k1 < result@[bb]@.len() && 0 <= k2 < result@[bb]@.len() && k1 != k2
                    ==> (#[trigger] result@[bb]@[k1]).1@ != (#[trigger] result@[bb]@[k2]).1@,
        decreases n - b,
    {
        let last = last_uses_in(&blocks[b], &exit_uses[b]);
        // A variable's last use in B frees its color only if it is not live-out of B.
        let here = not_live_entries(&last, &live_out[b]);
        let ghost r0 = result@;
        result.push(here);
        proof {
            assert(exit_uses@[b as int]@.dom() == exit_reads(blocks@, b));
            assert(result@[b as int] == here);
            assert forall|bb: int, k: int|
                0 <= bb < b + 1 && 0 <= k < result@[bb]@.len() implies last_use(blocks@, bb as usize, (#[trigger] result@[bb]@[k]).1@) == Some(
                    result@[bb]@[k].0,
                ) && !live_out@[bb]@.contains_key(result@[bb]@[k].1@) by {
                if bb < b {
                    assert(result@[bb] == r0[bb]);
                } else {
                    assert(last@.contains_key(here@[k].1@));
                }
            }
            assert forall|bb: int, x: Seq<char>|
                0 <= bb < b + 1 && #[trigger] last_use(blocks@, bb as usize, x) is Some && !live_out@[bb]@.contains_key(x)
                    implies exists|k: int| 0 <= k < result@[bb]@.len() && (#[trigger] result@[bb]@[k]).1@ == x by {
                if bb < b {
                    assert(result@[bb] == r0[bb]);
                    let k = choose|k: int| 0 <= k < r0[bb]@.len() && (#[trigger] r0[bb]@[k]).1@ == x;
                    assert(result@[bb]@[k] == r0[bb]@[k]);
                } else {
                    assert(last@.contains_key(x));
                    let k = choose|k: int| 0 <= k < here@.len() && (#[trigger] here@[k]).1@ == x;
                    assert(result@[bb]@[k] == here@[k]);
                }
            }
            assert forall|bb: int, k1: int, k2: int|
                0 <= bb < b + 1 && 0 <= k1 < result@[bb]@.len() && 0 <= k2 < result@[bb]@.len() && k1 != k2
                    implies (#[trigger] result@[bb]@[k1]).1@ != (#[trigger] result@[bb]@[k2]).1@ by {
                if bb < b {
                    assert(result@[bb] == r0[bb]);
                }
            }
        }
        b = b + 1;
    }
    result
}

// ---------------------------------------------------------------------------
// Tree scan
// ---------------------------------------------------------------------------

/// Every colored variable's color is reserved for the variable's type.
pub open spec fn colors_typed(
    color: Map<Seq<char>, usize>,
    color_type: Seq<Option<NumericType>>,
    var_type: Map<Seq<char>, NumericType>,
) -> bool {
    forall|v: Seq<char>| #[trigger] color.contains_key(v) ==> color[v] < color_type.len() && color_type[color[v] as int]
        == Some(spec_type_of(v, var_type))
}

/// Two variables of the same color have the same type.
pub proof fn lemma_same_color_same_type(
    color: Map<Seq<char>, usize>,
    color_type: Seq<Option<NumericType>>,
    var_type: Map<Seq<char>, NumericType>,
    v1: Seq<char>,
    v2: Seq<char>,
)
    requires
        colors_typed(color, color_type, var_type),
        color.contains_key(v1),
        color.contains_key(v2),
        color[v1] == color[v2],
    ensures
        spec_type_of(v1, var_type) == spec_type_of(v2, var_type),
{
}

/// The palette of free colors is no longer than the reservation table, or than
/// the initial palette of 1024 colors.
pub open spec fn palette_bound(available_len: int, reserved_len: int) -> bool {
    available_len <= 1024 || available_len <= reserved_len
}

/// Every variable that a block defines, by a φ-function or a statement, is in `dom`.
pub open spec fn block_defs_colored(block: BasicBlock, dom: Set<Seq<char>>) -> bool {
    &&& forall|k: int| 0 <= k < block.phi_functions@.len() ==> dom.contains(#[trigger] block.phi_functions@[k].output@)
    &&& forall|k: int|
        0 <= k < block.statements@.len() && (#[trigger] block.statements@[k]).output is Some ==> dom.contains(
            block.statements@[k].output.unwrap()@,
        )
}

/// The state of the coloring: the color of each variable, the number of colors in
/// use, and the type each color is reserved for.
pub struct Coloring {
    pub color: NameMap<usize>,
    pub num_colors: usize,
    pub color_type: Vec<Option<NumericType>>,
}

impl Coloring {
    pub open spec fn inv(&self, var_type: Map<Seq<char>, NumericType>) -> bool {
        &&& self.color.wf()
        &&& colors_typed(self.color@, self.color_type@, var_type)
        &&& self.color_type@.len() < usize::MAX
    }

    /// Gives `var` the first free color compatible with its type, and marks the color taken.
    fn color_variable(&mut self, var: &String, available: &mut Vec<bool>, var_type: &NameMap<NumericType>)
        requires
            old(self).inv(var_type@),
            var_type.wf(),
            old(available)@.len() < usize::MAX - 1,
            old(self).color_type@.len() < usize::MAX - 1,
        ensures
            final(self).inv(var_type@),
            final(self).color@.dom() == old(self).color@.dom().insert(var@),
            final(self).color_type@.len() >= old(self).color_type@.len(),
            palette_bound(old(available)@.len() as int, old(self).color_type@.len() as int) ==> palette_bound(
                final(available)@.len() as int,
                final(self).color_type@.len() as int,
            ),
            final(self).color@ == old(self).color@.insert(var@, final(self).color@[var@]),
            final(self).color@[var@] < final(available)@.len(),
            !final(available)@[final(self).color@[var@] as int],
            final(self).color@[var@] < old(available)@.len() ==> old(available)@[final(self).color@[var@] as int],
            final(available)@.len() >= old(available)@.len(),
            forall|i: int|
                0 <= i < old(available)@.len() && i != final(self).color@[var@] ==> #[trigger] final(available)@[i]
                    == old(available)@[i],
    {
        let t = type_of(var.as_str(), var_type);
        let ghost ct0 = self.color_type@;
        let c = choose_color(available, &mut self.num_colors, &t, &mut self.color_type);
        available.set(c, false);
        let ghost col0 = self.color@;
        self.color.insert(var.clone(), c);
        proof {
            assert forall|v: Seq<char>| #[trigger] self.color@.contains_key(v) implies self.color@[v] < self.color_type@.len()
                && self.color_type@[self.color@[v] as int] == Some(spec_type_of(v, var_type@)) by {
                if v != var@ {
                    assert(col0.contains_key(v));
                    let cv = col0[v];
                    assert(cv < ct0.len() && ct0[cv as int] == Some(spec_type_of(v, var_type@)));
                    if cv == c {
                        assert(compatible(ct0, c as int, t));
                    }
                }
            }
            assert(self.color@.dom() =~= col0.dom().insert(var@));
        }
    }

    /// Colors the φ-outputs and statement outputs of one block (Rastello 2022, Algorithm 22.1).
    fn color_block(
        &mut self,
        block: &BasicBlock,
        block_id: usize,
        last_uses: &Vec<(usize, String)>,
        live_in: &NameSet,
        var_type: &NameMap<NumericType>,
    )
        requires
            old(self).inv(var_type@),
            var_type.wf(),
            live_in.wf(),
        ensures
            final(self).inv(var_type@),
            old(self).color@.dom().subset_of(final(self).color@.dom()),
            final(self).color_type@.len() >= old(self).color_type@.len(),
            final(self).color_type@.len() < usize::MAX - 1 ==> block_defs_colored(*block, final(self).color@.dom()),
            final(self).color_type@.len() < usize::MAX - 1 ==> forall|k: int, v: Seq<char>|
                #[trigger] separated_at(*block, last_uses@, live_in@, old(self).color@, final(self).color@, k, v),
            final(self).color_type@.len() < usize::MAX - 1 ==> phis_separated(
                *block,
                live_in@,
                old(self).color@,
                final(self).color@,
                block.phi_functions@.len() as int,
            ),
    {
        // Build this block's palette from its live-in set: a color is occupied iff some
        // variable that is live at block entry holds it.
        let ghost before = self.color@;
        let mut available: Vec<bool> = Vec::new();
        while available.len() < 1024
            invariant
                available@.len() <= 1024,
            decreases 1024 - available@.len(),
        {
            available.push(true);
        }
        let mut v: usize = 0;
        while v < live_in.entries.len()
            invariant
                self.inv(var_type@),
                *self == *old(self),
                before == old(self).color@,
                live_in.wf(),
                v <= live_in.entries@.len(),
                palette_bound(available@.len() as int, self.color_type@.len() as int),
                forall|i: int|
                    0 <= i < v && before.contains_key(#[trigger] live_in.entries@[i].0@) ==> taken(
                        available@,
                        before,
                        live_in.entries@[i].0@,
                    ),
            decreases live_in.entries@.len() - v,
        {
            if let Some(c) = self.color.get(live_in.entries[v].0.as_str()) {
                let c = *c;
                proof {
                    assert(self.color@.contains_key(live_in.entries@[v as int].0@));
                    assert(c < self.color_type@.len());
                }
                let ghost a0 = available@;
                while available.len() <= c
                    invariant
                        c < usize::MAX,
                        c < self.color_type@.len(),
                        palette_bound(available@.len() as int, self.color_type@.len() as int),
                        available@.len() >= a0.len(),
                        forall|j: int| 0 <= j < a0.len() ==> #[trigger] available@[j] == a0[j],
                    decreases c + 1 - available@.len(),
                {
                    available.push(true);
                }
                available.set(c, false);
                proof {
                    assert forall|i: int|
                        0 <= i < v + 1 && before.contains_key(#[trigger] live_in.entries@[i].0@) implies taken(
                        available@,
                        before,
                        live_in.entries@[i].0@,
                    ) by {
                        if i < v {
                            let x = live_in.entries@[i].0@;
                            assert(taken(a0, before, x));
                            assert(available@[before[x] as int] == a0[before[x] as int] || before[x] == c);
                        }
                    }
                }
            }
            v = v + 1;
        }
        proof {
            assert forall|x: Seq<char>| live_in@.contains_key(x) && before.contains_key(x) implies #[trigger] taken(
                available@,
                before,
                x,
            ) by {
                assert(crate::collections::seq_has(live_in.entries@, x));
                let i = choose|i: int| 0 <= i < live_in.entries@.len() && #[trigger] live_in.entries@[i].0@ == x;
                assert(before.contains_key(live_in.entries@[i].0@));
            }
        }
        // Process phi outputs, which are defined at block entry.
        let ghost phis = block.phi_functions@;
        let mut k: usize = 0;
        while k < block.phi_functions.len()
            invariant
                self.inv(var_type@),
                var_type.wf(),
                before == old(self).color@,
                old(self).color@.dom().subset_of(self.color@.dom()),
                k <= block.phi_functions@.len(),
                phis == block.phi_functions@,
                self.color_type@.len() >= old(self).color_type@.len(),
                palette_bound(available@.len() as int, self.color_type@.len() as int),
                self.color_type@.len() < usize::MAX - 1 ==> forall|kk: int| 0 <= kk < k ==> self.color@.dom().contains(#[trigger] phis[kk].output@),
                forall|x: Seq<char>|
                    #[trigger] self.color@.contains_key(x) ==> before.contains_key(x) || exists|p: int| 0 <= p < k && phis[p].output@ == x,
                self.color_type@.len() < usize::MAX - 1 ==> forall|x: Seq<char>|
                    (live_in@.contains_key(x) && before.contains_key(x)) || (exists|p: int| 0 <= p < k && phis[p].output@ == x)
                        ==> #[trigger] taken(available@, self.color@, x),
                self.color_type@.len() < usize::MAX - 1 ==> phis_separated(*block, live_in@, before, self.color@, k as int),
            decreases block.phi_functions@.len() - k,
        {
            let ghost dom0 = self.color@.dom();
            let ghost col0 = self.color@;
            let ghost av0 = available@;
            if available.len() < usize::MAX - 1 && self.color_type.len() < usize::MAX - 1 {
                self.color_variable(&block.phi_functions[k].output, &mut available, var_type);
            }
            proof {
                if self.color_type@.len() < usize::MAX - 1 {
                    assert forall|kk: int| 0 <= kk < k + 1 implies self.color@.dom().contains(#[trigger] phis[kk].output@) by {
                        if kk < k {
                            assert(dom0.contains(phis[kk].output@));
                        }
                    }
                    let o = phis[k as int].output@;
                    assert forall|x: Seq<char>|
                        (live_in@.contains_key(x) && before.contains_key(x)) || (exists|p: int| 0 <= p < k + 1 && phis[p].output@ == x)
                            implies #[trigger] taken(available@, self.color@, x) by {
                        if x != o {
                            if !(live_in@.contains_key(x) && before.contains_key(x)) {
                                let p = choose|p: int| 0 <= p < k + 1 && phis[p].output@ == x;
                                assert(p < k);
                            }
                            assert(taken(av0, col0, x));
                            assert(self.color@[x] == col0[x]);
                        }
                    }
                    lemma_phi_step(*block, live_in@, before, col0, self.color@, av0, available@, k as int);
                }
                assert forall|x: Seq<char>| #[trigger] self.color@.contains_key(x) implies before.contains_key(x) || exists|p: int|
                    0 <= p < k + 1 && phis[p].output@ == x by {
                    if x != phis[k as int].output@ {
                        assert(col0.contains_key(x));
                        if !before.contains_key(x) {
                            let p = choose|p: int| 0 <= p < k && phis[p].output@ == x;
                            assert(0 <= p < k + 1 && phis[p].output@ == x);
                        }
                    } else {
                        assert(0 <= k < k + 1 && phis[k as int].output@ == x);
                    }
                }
            }
            k = k + 1;
        }
        let ghost stmts = block.statements@;
        let ghost lu = last_uses@;
        let ghost li = live_in@;
        proof {
            if self.color_type@.len() < usize::MAX - 1 {
                assert forall|x: Seq<char>|
                    holds_color_before(*block, li, before, 0, x) && self.color@.contains_key(x) && !freed_by(
                        self.color@,
                        lu,
                        -1,
                        self.color@[x] as int,
                    ) implies #[trigger] taken(available@, self.color@, x) by {
                    if !(live_in@.contains_key(x) && before.contains_key(x)) {
                        let p = choose|p: int| 0 <= p < phis.len() && #[trigger] block.phi_functions@[p].output@ == x;
                        assert(0 <= p < k && phis[p].output@ == x);
                    }
                }
            }
        }
        k = 0;
        while k < block.statements.len()
            invariant
                self.inv(var_type@),
                var_type.wf(),
                before == old(self).color@,
                lu == last_uses@,
                li == live_in@,
                old(self).color@.dom().subset_of(self.color@.dom()),
                k <= block.statements@.len(),
                phis == block.phi_functions@,
                stmts == block.statements@,
                self.color_type@.len() >= old(self).color_type@.len(),
                palette_bound(available@.len() as int, self.color_type@.len() as int),
                self.color_type@.len() < usize::MAX - 1 ==> forall|kk: int| 0 <= kk < phis.len() ==> self.color@.dom().contains(#[trigger] phis[kk].output@),
                self.color_type@.len() < usize::MAX - 1 ==> forall|kk: int|
                    0 <= kk < k && (#[trigger] stmts[kk]).output is Some ==> self.color@.dom().contains(stmts[kk].output.unwrap()@),
                forall|x: Seq<char>|
                    #[trigger] self.color@.contains_key(x) ==> before.contains_key(x) || (exists|p: int|
                        0 <= p < phis.len() && phis[p].output@ == x) || (exists|kk: int|
                        0 <= kk < k && stmts[kk].output is Some && stmts[kk].output.unwrap()@ == x),
                self.color_type@.len() < usize::MAX - 1 ==> forall|x: Seq<char>|
                    holds_color_before(*block, li, before, k as int, x) && self.color@.contains_key(x) && !freed_by(
                        self.color@,
                        lu,
                        k - 1,
                        self.color@[x] as int,
                    ) ==> #[trigger] taken(available@, self.color@, x),
                self.color_type@.len() < usize::MAX - 1 ==> forall|kk: int, x: Seq<char>|
                    0 <= kk < k ==> #[trigger] separated_at(*block, lu, li, before, self.color@, kk, x),
                self.color_type@.len() < usize::MAX - 1 ==> phis_separated(*block, li, before, self.color@, phis.len() as int),
            decreases block.statements@.len() - k,
        {
            // Free colors of variables whose last use is this statement
            let ghost av_pre = available@;
            self.free_last_uses(&mut available, last_uses, k);
            let ghost dom0 = self.color@.dom();
            let ghost col0 = self.color@;
            let ghost av0 = available@;
            let stmt = &block.statements[k];
            if let Some(output) = &stmt.output {
                if !self.color.contains(output.as_str()) {
                    if available.len() < usize::MAX - 1 && self.color_type.len() < usize::MAX - 1 {
                        self.color_variable(output, &mut available, var_type);
                    }
                }
            }
            proof {
                lemma_statement_step(*block, lu, li, before, col0, self.color@, av_pre, av0, available@, k,
                    self.color_type@.len() < usize::MAX - 1);
                if self.color_type@.len() < usize::MAX - 1 {
                    assert forall|x: Seq<char>| #[trigger] col0.contains_key(x) implies self.color@.contains_key(x)
                        && self.color@[x] == col0[x] by {
                        if self.color@ != col0 {
                            assert(x != stmts[k as int].output.unwrap()@);
                        }
                    }
                    lemma_phis_kept(*block, li, before, col0, self.color@);
                }
                if self.color_type@.len() < usize::MAX - 1 {
                    assert forall|kk: int| 0 <= kk < phis.len() implies self.color@.dom().contains(#[trigger] phis[kk].output@) by {
                        assert(dom0.contains(phis[kk].output@));
                    }
                    assert forall|kk: int|
                        0 <= kk < k + 1 && (#[trigger] stmts[kk]).output is Some implies self.color@.dom().contains(stmts[kk].output.unwrap()@) by {
                        if kk < k {
                            assert(dom0.contains(stmts[kk].output.unwrap()@));
                        }
                    }
                }
            }
            k = k + 1;
        }
        // Free colors of variables whose last use is at the block exit (terminator)
        self.free_last_uses(&mut available, last_uses, BLOCK_EXIT);
        proof {
            if self.color_type@.len() < usize::MAX - 1 {
                assert forall|kk: int, x: Seq<char>|
                    #[trigger] separated_at(*block, last_uses@, live_in@, old(self).color@, self.color@, kk, x) by {
                    if 0 <= kk < k {
                        assert(separated_at(*block, lu, li, before, self.color@, kk, x));
                    }
                }
            }
        }
    }

    /// Makes the colors of the variables whose last use is at `pos` available again.
    fn free_last_uses(&self, available: &mut Vec<bool>, last_uses: &Vec<(usize, String)>, pos: usize)
        requires
            self.color.wf(),
        ensures
            final(available)@.len() == old(available)@.len(),
            forall|c: int| 0 <= c < old(available)@.len() ==> #[trigger] final(available)@[c] == (old(available)@[c]
                || freed_color(self.color@, last_uses@, pos, last_uses@.len() as int, c)),
    {
        let mut i: usize = 0;
        while i < last_uses.len()
            invariant
                self.color.wf(),
                available@.len() == old(available)@.len(),
                i <= last_uses@.len(),
                forall|c: int| 0 <= c < old(available)@.len() ==> #[trigger] available@[c] == (old(available)@[c]
                    || freed_color(self.color@, last_uses@, pos, i as int, c)),
            decreases last_uses@.len() - i,
        {
            let ghost prev = available@;
            if last_uses[i].0 == pos {
                if let Some(c) = self.color.get(last_uses[i].1.as_str()) {
                    if *c < available.len() {
                        available.set(*c, true);
                    }
                }
            }
            proof {
                assert forall|c: int| 0 <= c < old(available)@.len() implies #[trigger] available@[c] == (old(available)@[c]
                    || freed_color(self.color@, last_uses@, pos, i + 1, c)) by {
                    let here = last_uses@[i as int].0 == pos && self.color@.contains_key(last_uses@[i as int].1@)
                        && self.color@[last_uses@[i as int].1@] == c;
                    assert(prev[c] == (old(available)@[c] || freed_color(self.color@, last_uses@, pos, i as int, c)));
                    if freed_color(self.color@, last_uses@, pos, i as int, c) {
                        let j = choose|j: int| 0 <= j < i && freed_here(self.color@, last_uses@, pos, j, c);
                        assert(freed_here(self.color@, last_uses@, pos, j, c));
                    }
                    if here {
                        assert(freed_here(self.color@, last_uses@, pos, i as int, c));
                    }
                    if freed_color(self.color@, last_uses@, pos, i + 1, c) && !here {
                        let j = choose|j: int| 0 <= j < i + 1 && freed_here(self.color@, last_uses@, pos, j, c);
                        assert(j < i);
                        assert(freed_here(self.color@, last_uses@, pos, j, c));
                    }
                }
            }
            i = i + 1;
        }
    }
}

/// Entry `j` of `last_uses` is a last use at `pos` of a variable whose color is `c`.
pub open spec fn freed_here(color: Map<Seq<char>, usize>, last_uses: Seq<(usize, String)>, pos: usize, j: int, c: int) -> bool {
    &&& last_uses[j].0 == pos
    &&& color.contains_key(last_uses[j].1@)
    &&& color[last_uses[j].1@] == c
}

/// One of the first `upto` entries of `last_uses` is a last use at `pos` of a
/// variable whose color is `c`.
pub open spec fn freed_color(color: Map<Seq<char>, usize>, last_uses: Seq<(usize, String)>, pos: usize, upto: int, c: int) -> bool {
    exists|j: int| 0 <= j < upto && #[trigger] freed_here(color, last_uses, pos, j, c)
}

/// Some entry of `last_uses` at a position up to `k` is a last use of a variable
/// whose color is `c`: the color has been released by statement `k`.
pub open spec fn freed_by(color: Map<Seq<char>, usize>, last_uses: Seq<(usize, String)>, k: int, c: int) -> bool {
    exists|j: int|
        #![trigger last_uses[j]]
        0 <= j < last_uses.len() && last_uses[j].0 <= k && color.contains_key(last_uses[j].1@) && color[last_uses[j].1@]
            == c
}

/// When statement `k` of `block` is reached, `v` holds a color: it was colored
/// before the block and is live into it, or a φ-function of the block defines it,
/// or an earlier statement of the block defines it for the first time.
pub open spec fn holds_color_before(
    block: BasicBlock,
    live_in: Map<Seq<char>, ()>,
    before: Map<Seq<char>, usize>,
    k: int,
    v: Seq<char>,
) -> bool {
    ||| live_in.contains_key(v) && before.contains_key(v)
    ||| exists|p: int| 0 <= p < block.phi_functions@.len() && #[trigger] block.phi_functions@[p].output@ == v
    ||| exists|kk: int|
        0 <= kk < k && (#[trigger] block.statements@[kk]).output is Some && block.statements@[kk].output.unwrap()@ == v
            && !before.contains_key(v)
}

/// Statement `k` of `block` defines a variable that had no color before the block
/// and that no φ-function and no earlier statement of the block defines.
pub open spec fn defines_fresh(block: BasicBlock, before: Map<Seq<char>, usize>, k: int) -> bool {
    &&& 0 <= k < block.statements@.len()
    &&& block.statements@[k].output is Some
    &&& !before.contains_key(block.statements@[k].output.unwrap()@)
    &&& forall|p: int|
        0 <= p < block.phi_functions@.len() ==> #[trigger] block.phi_functions@[p].output@ != block.statements@[k].output.unwrap()@
    &&& forall|kk: int|
        0 <= kk < k && (#[trigger] block.statements@[kk]).output is Some ==> block.statements@[kk].output.unwrap()@
            != block.statements@[k].output.unwrap()@
}

/// The variable that statement `k` defines afresh gets a color other than that of
/// any variable `v` that holds a color when the statement is reached, unless a
/// last use at or before the statement has released `v`'s color.
pub open spec fn separated_at(
    block: BasicBlock,
    last_uses: Seq<(usize, String)>,
    live_in: Map<Seq<char>, ()>,
    before: Map<Seq<char>, usize>,
    after: Map<Seq<char>, usize>,
    k: int,
    v: Seq<char>,
) -> bool {
    defines_fresh(block, before, k) && holds_color_before(block, live_in, before, k, v) && v
        != block.statements@[k].output.unwrap()@ && after.contains_key(v) && !freed_by(after, last_uses, k, after[v] as int)
        ==> after.contains_key(block.statements@[k].output.unwrap()@) && after[block.statements@[k].output.unwrap()@]
        != after[v]
}

/// No other φ-function of `block` defines the variable that φ-function `p` defines.
pub open spec fn phi_unique(block: BasicBlock, p: int) -> bool {
    &&& 0 <= p < block.phi_functions@.len()
    &&& forall|q: int|
        0 <= q < block.phi_functions@.len() && q != p ==> #[trigger] block.phi_functions@[q].output@
            != block.phi_functions@[p].output@
}

/// Some φ-function of `block` defines `x`.
pub open spec fn phi_defines(block: BasicBlock, x: Seq<char>) -> bool {
    exists|q: int| 0 <= q < block.phi_functions@.len() && #[trigger] block.phi_functions@[q].output@ == x
}

/// The φ-functions of a block, which all run at its entry, get colors other than
/// each other's and other than those of the variables that are live into the block
/// with a color: each φ-function `p` that alone defines its variable is apart from
/// every other such φ-function and from every colored live-in variable that no
/// φ-function redefines.
pub open spec fn phis_separated(
    block: BasicBlock,
    live_in: Map<Seq<char>, ()>,
    before: Map<Seq<char>, usize>,
    after: Map<Seq<char>, usize>,
    upto: int,
) -> bool {
    &&& forall|p: int, q: int|
        0 <= p < upto && 0 <= q < upto && p != q && phi_unique(block, p) && phi_unique(block, q) ==> after[
            #[trigger] block.phi_functions@[p].output@] != after[#[trigger] block.phi_functions@[q].output@]
    &&& forall|p: int, x: Seq<char>|
        0 <= p < upto && phi_unique(block, p) && live_in.contains_key(x) && before.contains_key(x) && !phi_defines(block, x)
            ==> #[trigger] after[block.phi_functions@[p].output@] != #[trigger] after[x]
}

/// `v` has a color, and the palette marks that color as taken.
pub open spec fn taken(available: Seq<bool>, color: Map<Seq<char>, usize>, v: Seq<char>) -> bool {
    color.contains_key(v) && color[v] < available.len() && !available[color[v] as int]
}

/// Coloring φ-function `k` keeps the φ-functions apart from each other and from
/// the colored live-in variables.
proof fn lemma_phi_step(
    block: BasicBlock,
    li: Map<Seq<char>, ()>,
    before: Map<Seq<char>, usize>,
    col0: Map<Seq<char>, usize>,
    col1: Map<Seq<char>, usize>,
    av0: Seq<bool>,
    av1: Seq<bool>,
    k: int,
)
    requires
        0 <= k < block.phi_functions@.len(),
        forall|x: Seq<char>|
            (li.contains_key(x) && before.contains_key(x)) || (exists|p: int| 0 <= p < k && block.phi_functions@[p].output@ == x)
                ==> #[trigger] taken(av0, col0, x),
        phis_separated(block, li, before, col0, k),
        col1 == col0.insert(block.phi_functions@[k].output@, col1[block.phi_functions@[k].output@]),
        col1[block.phi_functions@[k].output@] < av0.len() ==> av0[col1[block.phi_functions@[k].output@] as int],
    ensures
        phis_separated(block, li, before, col1, k + 1),
{
    let o = block.phi_functions@[k].output@;
    let c = col1[o];
    // the new color is free, so it differs from every taken color
    assert forall|x: Seq<char>| taken(av0, col0, x) implies col0[x] != c by {}
    assert forall|p: int, q: int|
        0 <= p < k + 1 && 0 <= q < k + 1 && p != q && phi_unique(block, p) && phi_unique(block, q) implies col1[
        #[trigger] block.phi_functions@[p].output@] != col1[#[trigger] block.phi_functions@[q].output@] by {
        let op = block.phi_functions@[p].output@;
        let oq = block.phi_functions@[q].output@;
        if p == k {
            assert(oq != o);
            assert(taken(av0, col0, oq));
        } else if q == k {
            assert(op != o);
            assert(taken(av0, col0, op));
        } else {
            assert(op != o && oq != o);
            assert(col0[op] != col0[oq]);
        }
    }
    assert forall|p: int, x: Seq<char>|
        0 <= p < k + 1 && phi_unique(block, p) && li.contains_key(x) && before.contains_key(x) && !phi_defines(block, x)
            implies #[trigger] col1[block.phi_functions@[p].output@] != #[trigger] col1[x] by {
        let op = block.phi_functions@[p].output@;
        assert(x != o) by {
            if x == o {
                assert(block.phi_functions@[k].output@ == x);
            }
        }
        if p == k {
            assert(taken(av0, col0, x));
        } else {
            assert(op != o);
            assert(col0[op] != col0[x]);
        }
    }
}

/// The colors of the φ-functions and of the colored live-in variables stay apart
/// while no color of theirs changes.
proof fn lemma_phis_kept(
    block: BasicBlock,
    li: Map<Seq<char>, ()>,
    before: Map<Seq<char>, usize>,
    col0: Map<Seq<char>, usize>,
    col1: Map<Seq<char>, usize>,
)
    requires
        phis_separated(block, li, before, col0, block.phi_functions@.len() as int),
        forall|x: Seq<char>| #[trigger] col0.contains_key(x) ==> col1.contains_key(x) && col1[x] == col0[x],
        forall|x: Seq<char>| #[trigger] before.contains_key(x) ==> col0.contains_key(x),
        forall|p: int| 0 <= p < block.phi_functions@.len() ==> col0.contains_key(#[trigger] block.phi_functions@[p].output@),
    ensures
        phis_separated(block, li, before, col1, block.phi_functions@.len() as int),
{
    let n = block.phi_functions@.len() as int;
    assert forall|p: int, q: int|
        0 <= p < n && 0 <= q < n && p != q && phi_unique(block, p) && phi_unique(block, q) implies col1[
        #[trigger] block.phi_functions@[p].output@] != col1[#[trigger] block.phi_functions@[q].output@] by {
        assert(col0.contains_key(block.phi_functions@[p].output@));
        assert(col0.contains_key(block.phi_functions@[q].output@));
    }
    assert forall|p: int, x: Seq<char>|
        0 <= p < n && phi_unique(block, p) && li.contains_key(x) && before.contains_key(x) && !phi_defines(block, x)
            implies #[trigger] col1[block.phi_functions@[p].output@] != #[trigger] col1[x] by {
        assert(col0.contains_key(block.phi_functions@[p].output@));
        assert(col0.contains_key(x));
        assert(col0[block.phi_functions@[p].output@] != col0[x]);
    }
}

/// A color released in a smaller coloring, or by an earlier position, stays released.
proof fn lemma_freed_by_grows(
    m0: Map<Seq<char>, usize>,
    m1: Map<Seq<char>, usize>,
    lu: Seq<(usize, String)>,
    k0: int,
    k1: int,
    c: int,
)
    requires
        forall|x: Seq<char>| #[trigger] m0.contains_key(x) ==> m1.contains_key(x) && m1[x] == m0[x],
        k0 <= k1,
        freed_by(m0, lu, k0, c),
    ensures
        freed_by(m1, lu, k1, c),
{
    let j = choose|j: int|
        #![trigger lu[j]]
        0 <= j < lu.len() && lu[j].0 <= k0 && m0.contains_key(lu[j].1@) && m0[lu[j].1@] == c;
    assert(m1.contains_key(lu[j].1@));
}

/// One statement of the coloring of a block keeps the palette and the separation
/// of the colors: the colors of the variables that still hold one stay taken, and
/// a variable that the statement defines afresh gets a color that none of them has.
proof fn lemma_statement_step(
    block: BasicBlock,
    lu: Seq<(usize, String)>,
    li: Map<Seq<char>, ()>,
    before: Map<Seq<char>, usize>,
    col0: Map<Seq<char>, usize>,
    col1: Map<Seq<char>, usize>,
    av_pre: Seq<bool>,
    av0: Seq<bool>,
    av1: Seq<bool>,
    k: usize,
    guard: bool,
)
    requires
        k < block.statements@.len(),
        forall|x: Seq<char>| #[trigger] before.contains_key(x) ==> col0.contains_key(x),
        forall|x: Seq<char>|
            #[trigger] col0.contains_key(x) ==> before.contains_key(x) || (exists|p: int|
                0 <= p < block.phi_functions@.len() && block.phi_functions@[p].output@ == x) || (exists|kk: int|
                0 <= kk < k && block.statements@[kk].output is Some && block.statements@[kk].output.unwrap()@ == x),
        guard ==> forall|kk: int| 0 <= kk < block.phi_functions@.len() ==> col0.contains_key(#[trigger] block.phi_functions@[kk].output@),
        guard ==> forall|kk: int|
            0 <= kk < k && (#[trigger] block.statements@[kk]).output is Some ==> col0.contains_key(block.statements@[kk].output.unwrap()@),
        guard ==> forall|x: Seq<char>|
            holds_color_before(block, li, before, k as int, x) && col0.contains_key(x) && !freed_by(col0, lu, k - 1, col0[x] as int)
                ==> #[trigger] taken(av_pre, col0, x),
        guard ==> forall|kk: int, x: Seq<char>| 0 <= kk < k ==> #[trigger] separated_at(block, lu, li, before, col0, kk, x),
        av0.len() == av_pre.len(),
        forall|c: int| 0 <= c < av_pre.len() ==> #[trigger] av0[c] == (av_pre[c] || freed_color(col0, lu, k, lu.len() as int, c)),
        (col1 == col0 && av1 == av0) || ({
            let o = block.statements@[k as int].output.unwrap()@;
            &&& block.statements@[k as int].output is Some
            &&& !col0.contains_key(o)
            &&& col1 == col0.insert(o, col1[o])
            &&& col1[o] < av1.len()
            &&& !av1[col1[o] as int]
            &&& col1[o] < av0.len() ==> av0[col1[o] as int]
            &&& av1.len() >= av0.len()
            &&& forall|i: int| 0 <= i < av0.len() && i != col1[o] ==> #[trigger] av1[i] == av0[i]
        }),
        guard && block.statements@[k as int].output is Some && !col0.contains_key(block.statements@[k as int].output.unwrap()@)
            ==> col1.contains_key(block.statements@[k as int].output.unwrap()@),
    ensures
        forall|x: Seq<char>|
            #[trigger] col1.contains_key(x) ==> before.contains_key(x) || (exists|p: int|
                0 <= p < block.phi_functions@.len() && block.phi_functions@[p].output@ == x) || (exists|kk: int|
                0 <= kk < k + 1 && block.statements@[kk].output is Some && block.statements@[kk].output.unwrap()@ == x),
        guard ==> forall|x: Seq<char>|
            holds_color_before(block, li, before, k + 1, x) && col1.contains_key(x) && !freed_by(col1, lu, k as int, col1[x] as int)
                ==> #[trigger] taken(av1, col1, x),
        guard ==> forall|kk: int, x: Seq<char>| 0 <= kk < k + 1 ==> #[trigger] separated_at(block, lu, li, before, col1, kk, x),
{
    let out = block.statements@[k as int].output;
    let o = out.unwrap()@;
    let colored = !(col1 == col0 && av1 == av0);
    assert forall|x: Seq<char>| #[trigger] col0.contains_key(x) implies col1.contains_key(x) && col1[x] == col0[x] by {
        if colored {
            assert(x != o);
        }
    }
    assert forall|x: Seq<char>| #[trigger] col1.contains_key(x) implies before.contains_key(x) || (exists|p: int|
        0 <= p < block.phi_functions@.len() && block.phi_functions@[p].output@ == x) || (exists|kk: int|
        0 <= kk < k + 1 && block.statements@[kk].output is Some && block.statements@[kk].output.unwrap()@ == x) by {
        if colored && x == o {
            assert(0 <= k < k + 1 && block.statements@[k as int].output is Some && block.statements@[k as int].output.unwrap()@ == x);
        } else {
            assert(col0.contains_key(x));
            if !before.contains_key(x) && !(exists|p: int|
                0 <= p < block.phi_functions@.len() && block.phi_functions@[p].output@ == x) {
                let kk = choose|kk: int|
                    0 <= kk < k && block.statements@[kk].output is Some && block.statements@[kk].output.unwrap()@ == x;
                assert(0 <= kk < k + 1 && block.statements@[kk].output is Some && block.statements@[kk].output.unwrap()@ == x);
            }
        }
    }
    if guard {
        // A variable of the old coloring whose color is not released at `k` keeps its color taken.
        assert forall|x: Seq<char>|
            holds_color_before(block, li, before, k as int, x) && col0.contains_key(x) && !freed_by(col0, lu, k as int, col0[x] as int)
                implies !av0[col0[x] as int] && col0[x] < av0.len() by {
            if freed_by(col0, lu, k - 1, col0[x] as int) {
                lemma_freed_by_grows(col0, col0, lu, k - 1, k as int, col0[x] as int);
            }
            assert(taken(av_pre, col0, x));
            if freed_color(col0, lu, k, lu.len() as int, col0[x] as int) {
                let j = choose|j: int| 0 <= j < lu.len() && #[trigger] freed_here(col0, lu, k, j, col0[x] as int);
                assert(lu[j].0 <= k);
            }
        }
        assert forall|x: Seq<char>|
            holds_color_before(block, li, before, k + 1, x) && col1.contains_key(x) && !freed_by(col1, lu, k as int, col1[x] as int)
                implies #[trigger] taken(av1, col1, x) by {
            if colored && x == o {
            } else {
                assert(col0.contains_key(x));
                if freed_by(col0, lu, k as int, col0[x] as int) {
                    lemma_freed_by_grows(col0, col1, lu, k as int, k as int, col0[x] as int);
                }
                if !holds_color_before(block, li, before, k as int, x) {
                    // x is defined by statement k, and was colored already
                    let kk = choose|kk: int|
                        0 <= kk < k + 1 && (#[trigger] block.statements@[kk]).output is Some
                            && block.statements@[kk].output.unwrap()@ == x && !before.contains_key(x);
                    assert(kk == k);
                    if exists|p: int| 0 <= p < block.phi_functions@.len() && block.phi_functions@[p].output@ == x {
                        let p = choose|p: int| 0 <= p < block.phi_functions@.len() && block.phi_functions@[p].output@ == x;
                        assert(block.phi_functions@[p].output@ == x);
                    } else {
                        let k2 = choose|k2: int|
                            0 <= k2 < k && block.statements@[k2].output is Some && block.statements@[k2].output.unwrap()@ == x;
                        assert(block.statements@[k2].output is Some);
                    }
                }
                assert(!av0[col0[x] as int]);
                if colored {
                    assert(col1[o] != col0[x]);
                }
            }
        }
        assert forall|kk: int, x: Seq<char>| 0 <= kk < k + 1 implies #[trigger] separated_at(block, lu, li, before, col1, kk, x) by {
            let ok = block.statements@[kk].output.unwrap()@;
            if defines_fresh(block, before, kk) && holds_color_before(block, li, before, kk, x) && x != ok && col1.contains_key(x)
                && !freed_by(col1, lu, kk, col1[x] as int) {
                if kk < k {
                    if colored && x == o {
                        // o has no color before statement k, so it holds none at kk
                        if exists|p: int| 0 <= p < block.phi_functions@.len() && #[trigger] block.phi_functions@[p].output@ == x {
                            let p = choose|p: int| 0 <= p < block.phi_functions@.len() && #[trigger] block.phi_functions@[p].output@ == x;
                            assert(col0.contains_key(block.phi_functions@[p].output@));
                        } else if !(li.contains_key(x) && before.contains_key(x)) {
                            let k2 = choose|k2: int|
                                0 <= k2 < kk && (#[trigger] block.statements@[k2]).output is Some
                                    && block.statements@[k2].output.unwrap()@ == x && !before.contains_key(x);
                            assert(col0.contains_key(block.statements@[k2].output.unwrap()@));
                        }
                    }
                    assert(col0.contains_key(x));
                    if freed_by(col0, lu, kk, col0[x] as int) {
                        lemma_freed_by_grows(col0, col1, lu, kk, kk, col0[x] as int);
                    }
                    assert(separated_at(block, lu, li, before, col0, kk, x));
                } else {
                    assert(kk == k);
                    assert(!col0.contains_key(o)) by {
                        if col0.contains_key(o) {
                            if exists|p: int| 0 <= p < block.phi_functions@.len() && block.phi_functions@[p].output@ == o {
                                let p = choose|p: int| 0 <= p < block.phi_functions@.len() && block.phi_functions@[p].output@ == o;
                                assert(block.phi_functions@[p].output@ != o);
                            } else if !before.contains_key(o) {
                                let k2 = choose|k2: int|
                                    0 <= k2 < k && block.statements@[k2].output is Some && block.statements@[k2].output.unwrap()@ == o;
                                assert(block.statements@[k2].output is Some);
                            }
                        }
                    }
                    assert(colored);
                    assert(col0.contains_key(x));
                    if freed_by(col0, lu, k as int, col0[x] as int) {
                        lemma_freed_by_grows(col0, col1, lu, k as int, k as int, col0[x] as int);
                    }
                    assert(!av0[col0[x] as int] && col0[x] < av0.len());
                }
            }
        }
    }
}

/// Depth-first walk of the dominance tree from `entry`, coloring each block it
/// reaches; a block's children are colored after it, in order, and each child
/// rebuilds its own palette from its live-in set. Every variable defined in a block
/// that the tree reaches from `entry` gets a color, unless the table of colors has
/// grown to the largest size a `usize` counts.
pub fn assign_colors(
    entry: usize,
    blocks: &Vec<BasicBlock>,
    children: &Vec<Vec<usize>>,
    last_use_at: &Vec<Vec<(usize, String)>>,
    live_in: &Vec<NameSet>,
    var_type: &NameMap<NumericType>,
    coloring: &mut Coloring,
)
    requires
        entry < blocks@.len(),
        children@.len() == blocks@.len(),
        forall|p: int, j: int| 0 <= p < children@.len() && 0 <= j < children@[p]@.len() ==> #[trigger] children@[p]@[j]
            < blocks@.len(),
        last_use_at@.len() == blocks@.len(),
        live_in@.len() == blocks@.len(),
        forall|x: int| 0 <= x < live_in@.len() ==> #[trigger] live_in@[x].wf(),
        var_type.wf(),
        old(coloring).inv(var_type@),
    ensures
        final(coloring).inv(var_type@),
        old(coloring).color@.dom().subset_of(final(coloring).color@.dom()),
        final(coloring).color_type@.len() >= old(coloring).color_type@.len(),
        final(coloring).color_type@.len() < usize::MAX - 1 ==> forall|b: usize|
            #[trigger] adj_reachable(children@, entry, b) ==> b < blocks@.len() && block_defs_colored(
                blocks@[b as int],
                final(coloring).color@.dom(),
            ),
{
    let n = blocks.len();
    let mut visited: Vec<bool> = Vec::new();
    let mut i: usize = 0;
    while i < n
        invariant
            n == blocks@.len(),
            i <= n,
            visited@.len() == i,
            forall|x: int| 0 <= x < i ==> !(#[trigger] visited@[x]),
        decreases n - i,
    {
        visited.push(false);
        i = i + 1;
    }
    let mut stack: Vec<usize> = Vec::new();
    stack.push(entry);
    proof {
        assert(stack@[0] == entry);
    }
    while stack.len() > 0
        invariant
            n == blocks@.len(),
            entry < n,
            visited@.len() == n,
            children@.len() == n,
            forall|p: int, j: int| 0 <= p < children@.len() && 0 <= j < children@[p]@.len() ==> #[trigger] children@[p]@[j]
                < n,
            last_use_at@.len() == n,
            live_in@.len() == n,
            forall|x: int| 0 <= x < live_in@.len() ==> #[trigger] live_in@[x].wf(),
            var_type.wf(),
            coloring.inv(var_type@),
            old(coloring).color@.dom().subset_of(coloring.color@.dom()),
            coloring.color_type@.len() >= old(coloring).color_type@.len(),
            forall|k: int| 0 <= k < stack@.len() ==> #[trigger] stack@[k] < n,
            visited@[entry as int] || stack@.contains(entry),
            forall|x: int|
                0 <= x < n && #[trigger] visited@[x] ==> (coloring.color_type@.len() < usize::MAX - 1 ==> block_defs_colored(
                    blocks@[x],
                    coloring.color@.dom(),
                )),
            forall|x: int, j: int|
                0 <= x < n && visited@[x] && 0 <= j < children@[x]@.len() ==> visited@[#[trigger] children@[x]@[j] as int]
                    || stack@.contains(children@[x]@[j]),
        decreases count_false(visited@), stack@.len(),
    {
        let ghost st0 = stack@;
        let ghost vis0 = visited@;
        let ghost dom0 = coloring.color@.dom();
        let b = stack.pop().unwrap();
        proof {
            assert(stack@ =~= st0.drop_last());
            assert(b == st0.last());
            assert(st0[st0.len() - 1] == b);
            assert forall|y: usize| #[trigger] st0.contains(y) implies stack@.contains(y) || y == b by {
                let k = choose|k: int| 0 <= k < st0.len() && st0[k] == y;
                if k < st0.len() - 1 {
                    assert(stack@[k] == y);
                }
            }
        }
        if !visited[b] {
            proof {
                lemma_count_false_set(visited@, b as int);
            }
            visited.set(b, true);
            coloring.color_block(&blocks[b], b, &last_use_at[b], &live_in[b], var_type);
            // Recurse into the dominance-tree children, first child first.
            let kids = &children[b];
            let ghost s1 = stack@;
            let mut j: usize = kids.len();
            while j > 0
                invariant
                    n == blocks@.len(),
                    b < n,
                    children@.len() == n,
                    *kids == children@[b as int],
                    forall|p: int, jj: int| 0 <= p < children@.len() && 0 <= jj < children@[p]@.len() ==> #[trigger] children@[p]@[jj]
                        < n,
                    j <= kids@.len(),
                    forall|k: int| 0 <= k < stack@.len() ==> #[trigger] stack@[k] < n,
                    stack@.len() == s1.len() + (kids@.len() - j),
                    forall|k: int| 0 <= k < s1.len() ==> #[trigger] stack@[k] == s1[k],
                    forall|jj: int| j <= jj < kids@.len() ==> stack@.contains(#[trigger] kids@[jj]),
                decreases j,
            {
                j = j - 1;
                proof {
                    assert(children@[b as int]@[j as int] < n);
                }
                let ghost s0 = stack@;
                stack.push(kids[j]);
                proof {
                    assert forall|k: int| 0 <= k < stack@.len() implies #[trigger] stack@[k] < n by {
                        if k < s0.len() {
                            assert(stack@[k] == s0[k]);
                        }
                    }
                    assert forall|jj: int| j <= jj < kids@.len() implies stack@.contains(#[trigger] kids@[jj]) by {
                        if jj == j {
                            assert(stack@[s0.len() as int] == kids@[jj]);
                        } else {
                            let k = choose|k: int| 0 <= k < s0.len() && s0[k] == kids@[jj];
                            assert(stack@[k] == kids@[jj]);
                        }
                    }
                }
            }
            proof {
                assert forall|y: usize| #[trigger] s1.contains(y) implies stack@.contains(y) by {
                    let k = choose|k: int| 0 <= k < s1.len() && s1[k] == y;
                    assert(stack@[k] == y);
                }
                assert forall|x: int|
                    0 <= x < n && #[trigger] visited@[x] implies (coloring.color_type@.len() < usize::MAX - 1 ==> block_defs_colored(
                        blocks@[x],
                        coloring.color@.dom(),
                    )) by {
                    if x != b && coloring.color_type@.len() < usize::MAX - 1 {
                        assert(vis0[x]);
                        assert(block_defs_colored(blocks@[x], dom0));
                        let d = coloring.color@.dom();
                        assert forall|k: int| 0 <= k < blocks@[x].phi_functions@.len() implies d.contains(
                            #[trigger] blocks@[x].phi_functions@[k].output@,
                        ) by {
                            assert(dom0.contains(blocks@[x].phi_functions@[k].output@));
                        }
                        assert forall|k: int|
                            0 <= k < blocks@[x].statements@.len() && (#[trigger] blocks@[x].statements@[k]).output is Some implies d.contains(
                                blocks@[x].statements@[k].output.unwrap()@,
                            ) by {
                            assert(dom0.contains(blocks@[x].statements@[k].output.unwrap()@));
                        }
                    }
                }
                assert forall|x: int, jj: int|
                    0 <= x < n && visited@[x] && 0 <= jj < children@[x]@.len() implies visited@[#[trigger] children@[x]@[jj] as int]
                        || stack@.contains(children@[x]@[jj]) by {
                    let q = children@[x]@[jj];
                    if x == b {
                        assert(stack@.contains(kids@[jj]));
                    } else {
                        assert(vis0[x]);
                        assert(vis0[q as int] || st0.contains(q));
                        if !vis0[q as int] && q != b {
                            assert(s1.contains(q));
                        }
                    }
                }
                if !visited@[entry as int] {
                    assert(st0.contains(entry));
                    assert(s1.contains(entry));
                }
            }
        } else {
            proof {
                assert forall|x: int, jj: int|
                    0 <= x < n && visited@[x] && 0 <= jj < children@[x]@.len() implies visited@[#[trigger] children@[x]@[jj] as int]
                        || stack@.contains(children@[x]@[jj]) by {
                    let q = children@[x]@[jj];
                    if !visited@[q as int] {
                        assert(st0.contains(q));
                    }
                }
                if !visited@[entry as int] {
                    assert(st0.contains(entry));
                }
            }
        }
    }
    proof {
        let s = Set::new(|x: usize| x < n && visited@[x as int]);
        assert forall|x: usize, t: usize| s.contains(x) && #[trigger] adj_edge(children@, x, t) implies s.contains(t) by {
            let j = choose|j: int| 0 <= j < children@[x as int]@.len() && children@[x as int]@[j] == t;
            assert(visited@[children@[x as int]@[j] as int] || stack@.contains(children@[x as int]@[j]));
        }
        if coloring.color_type@.len() < usize::MAX - 1 {
            assert forall|b: usize| #[trigger] adj_reachable(children@, entry, b) implies b < blocks@.len() && block_defs_colored(
                blocks@[b as int],
                coloring.color@.dom(),
            ) by {
                let p = choose|p: Seq<usize>| #[trigger] adj_path(children@, p) && p[0] == entry && p.last() == b;
                lemma_closed_path(children@, s, p, p.len() - 1);
                assert(s.contains(b));
                assert(visited@[b as int]);
            }
        }
    }
}

impl CFG {
    /// Colors the variables of the graph and returns the renaming after colors
    /// (every variable to a canonical variable of its color), with the numeric type
    /// of each variable. A variable and its new name have the same type, so two
    /// variables of different types never get the same name.
    pub fn color_variables(&self) -> (r: (NameMap<String>, NameMap<NumericType>))
        requires
            self.wf(),
        ensures
            r.0.wf(),
            r.1.wf(),
            forall|v: Seq<char>| #[trigger] r.0@.contains_key(v) ==> spec_type_of(r.0@[v]@, r.1@) == spec_type_of(v, r.1@),
            graph_typing(self.blocks@, r.1@),
    {
        let n = self.blocks.len();
        proof {
            assert forall|i: int| 0 <= i < n implies #[trigger] self.blocks@[i].links_below(n as nat) by {
                assert(self.block_ok(i));
            }
        }
        // Step 1: Compute dominance tree
        let idom = compute_idom(&self.blocks, self.entry);
        let children = build_dom_children(&idom, n, self.entry);
        proof {
            assert forall|p: int, j: int| 0 <= p < children@.len() && 0 <= j < children@[p]@.len() implies #[trigger] children@[p]@[j]
                < n by {
                assert(children@[p]@.contains(children@[p]@[j]));
            }
        }
        // Step 2: Compute liveness (live-on-edge semantics) and last-use information
        let (live_in, live_out) = compute_fresh_live_out(&self.blocks);
        let last_use_at = compute_last_uses(&self.blocks, &live_out);
        // The CVM has two disjoint register banks (Integer and FiniteField), so
        // variables of different types must never share a color.
        let var_type = compute_variable_types(&self.blocks);
        // Step 3: Run tree scan to assign colors
        let mut coloring = Coloring { color: NameMap::new(), num_colors: 0, color_type: Vec::new() };
        assign_colors(self.entry, &self.blocks, &children, &last_use_at, &live_in, &var_type, &mut coloring);
        // Step 4: Build renaming map (color -> canonical name): the first variable, in
        // the order of names, that has the color.
        let mut color_to_name: Vec<Option<String>> = Vec::new();
        let mut c: usize = 0;
        while c < coloring.color_type.len()
            invariant
                c <= coloring.color_type@.len(),
                color_to_name@.len() == c,
                forall|k: int| 0 <= k < c ==> (#[trigger] color_to_name@[k]).is_none(),
            decreases coloring.color_type@.len() - c,
        {
            color_to_name.push(None);
            c = c + 1;
        }
        let entries = &coloring.color.entries;
        let mut e: usize = 0;
        while e < entries.len()
            invariant
                coloring.inv(var_type@),
                *entries == coloring.color.entries,
                color_to_name@.len() == coloring.color_type@.len(),
                e <= entries@.len(),
                forall|k: int| 0 <= k < color_to_name@.len() && (#[trigger] color_to_name@[k]).is_some() ==> coloring.color@.contains_key(
                    color_to_name@[k].unwrap()@,
                ) && coloring.color@[color_to_name@[k].unwrap()@] == k,
            decreases entries@.len() - e,
        {
            let c = entries[e].1;
            proof {
                lemma_seq_map_entry(entries@, e as int);
                assert(coloring.color@.contains_key(entries@[e as int].0@));
            }
            if color_to_name[c].is_none() {
                let ghost m0 = color_to_name@;
                color_to_name.set(c, Some(entries[e].0.clone()));
                proof {
                    assert forall|k: int| 0 <= k < color_to_name@.len() && (#[trigger] color_to_name@[k]).is_some() implies coloring.color@.contains_key(
                        color_to_name@[k].unwrap()@,
                    ) && coloring.color@[color_to_name@[k].unwrap()@] == k by {
                        if k != c {
                            assert(color_to_name@[k] == m0[k]);
                        }
                    }
                }
            }
            e = e + 1;
        }
        let mut rename: NameMap<String> = NameMap::new();
        let mut e: usize = 0;
        while e < entries.len()
            invariant
                coloring.inv(var_type@),
                var_type.wf(),
                *entries == coloring.color.entries,
                color_to_name@.len() == coloring.color_type@.len(),
                e <= entries@.len(),
                rename.wf(),
                forall|k: int| 0 <= k < color_to_name@.len() && (#[trigger] color_to_name@[k]).is_some() ==> coloring.color@.contains_key(
                    color_to_name@[k].unwrap()@,
                ) && coloring.color@[color_to_name@[k].unwrap()@] == k,
                forall|v: Seq<char>| #[trigger] rename@.contains_key(v) ==> spec_type_of(rename@[v]@, var_type@) == spec_type_of(
                    v,
                    var_type@,
                ),
            decreases entries@.len() - e,
        {
            let c = entries[e].1;
            proof {
                lemma_seq_map_entry(entries@, e as int);
                assert(coloring.color@.contains_key(entries@[e as int].0@));
            }
            if let Some(name) = &color_to_name[c] {
                let ghost v = entries@[e as int].0@;
                proof {
                    assert(color_to_name@[c as int].is_some());
                    lemma_same_color_same_type(coloring.color@, coloring.color_type@, var_type@, v, name@);
                }
                let ghost r0 = rename@;
                rename.insert(entries[e].0.clone(), name.clone());
                proof {
                    assert forall|w: Seq<char>| #[trigger] rename@.contains_key(w) implies spec_type_of(rename@[w]@, var_type@)
                        == spec_type_of(w, var_type@) by {
                        if w != v {
                            assert(r0.contains_key(w));
                        }
                    }
                }
            }
            e = e + 1;
        }
        (rename, var_type)
    }

    /// Tree Scan register coloring (Rastello 2022, Algorithm 22.1).
    /// Operates on C-SSA form (after isolate_phis, before destroy_cssa).
    /// Assigns colors to variables and renames them, eliminating identity copies.
    pub fn tree_scan_coloring(&mut self)
        requires
            old(self).wf(),
        ensures
            final(self).reshaped_from(*old(self)),
            final(self).wf(),
            old(self).phis_complete() ==> final(self).phis_complete(),
            exists|f: Map<Seq<char>, Seq<char>>, types: Map<Seq<char>, NumericType>|
                #![trigger type_preserving(f, types)]
                graph_typing(old(self).blocks@, types) && type_preserving(f, types) && forall|i: int|
                    0 <= i < final(self).blocks@.len() ==> renamed_block(#[trigger] final(self).blocks@[i], old(self).blocks@[i], f),
    {
        let (rename, types) = self.color_variables();
        let ghost f = renaming_view(rename);
        proof {
            assert forall|v: Seq<char>| #[trigger] f.contains_key(v) implies spec_type_of(f[v], types@) == spec_type_of(v, types@) by {
                assert(rename@.contains_key(v));
            }
        }
        // Step 5: Apply renaming and remove identity copies
        let ghost orig = *self;
        let n = self.blocks.len();
        let mut b: usize = 0;
        proof {
            self.lemma_reshaped_refl();
        }
        while b < n
            invariant
                orig.wf(),
                rename.wf(),
                n == orig.blocks@.len(),
                b <= n,
                self.reshaped_from(orig),
                f == renaming_view(rename),
                forall|i: int| 0 <= i < b ==> renamed_block(#[trigger] self.blocks@[i], orig.blocks@[i], f),
                forall|i: int| b <= i < n ==> #[trigger] self.blocks@[i] == orig.blocks@[i],
            decreases n - b,
        {
            let ghost before = *self;
            self.blocks[b].apply_renaming(&rename);
            proof {
                assert forall|i: int| 0 <= i < b + 1 implies renamed_block(#[trigger] self.blocks@[i], orig.blocks@[i], f) by {
                    if i < b {
                        assert(self.blocks@[i] == before.blocks@[i]);
                    } else {
                        assert(before.blocks@[i] == orig.blocks@[i]);
                    }
                }
                assert forall|i: int| b + 1 <= i < n implies #[trigger] self.blocks@[i] == orig.blocks@[i] by {
                    assert(self.blocks@[i] == before.blocks@[i]);
                }
                assert forall|i: int| 0 <= i < self.blocks@.len() implies {
                    &&& same_frame(#[trigger] self.blocks@[i], orig.blocks@[i])
                    &&& same_phi_shape(self.blocks@[i].phi_functions@, orig.blocks@[i].phi_functions@)
                    &&& self.blocks@[i].wf()
                } by {
                    assert(same_frame(before.blocks@[i], orig.blocks@[i]));
                    assert(same_phi_shape(before.blocks@[i].phi_functions@, orig.blocks@[i].phi_functions@));
                    if i == b {
                        let x = self.blocks@[i].phi_functions@;
                        let y = before.blocks@[i].phi_functions@;
                        let z = orig.blocks@[i].phi_functions@;
                        assert(same_phi_shape(x, y));
                        assert forall|k: int| 0 <= k < x.len() implies (#[trigger] x[k]).possibilities@.len() == z[k].possibilities@.len() by {
                            assert(y[k].possibilities@.len() == z[k].possibilities@.len());
                        }
                        assert forall|k: int, q: int| 0 <= k < x.len() && 0 <= q < x[k].possibilities@.len() implies
                            (#[trigger] x[k].possibilities@[q]).block == z[k].possibilities@[q].block by {
                            assert(y[k].possibilities@.len() == z[k].possibilities@.len());
                            assert(y[k].possibilities@[q].block == z[k].possibilities@[q].block);
                        }
                    }
                }
                self.lemma_reshaped(orig);
            }
            b = b + 1;
        }
        proof {
            self.lemma_reshaped(orig);
            assert(type_preserving(f, types@));
        }
    }
}

} // verus!
