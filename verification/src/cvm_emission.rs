//! CVM text for instructions, and the structural walk that turns a control
//! flow graph back into CVM code with `if`, `loop`, `break` and `continue`.

use vstd::prelude::*;

use crate::cfg::{
    opt_name, opt_succ, preds_listed, stmts_view, succ_targets, targets_of, BasicBlock, SpecStatement, SpecSuccessor, Statement,
    Successor, CFG,
};
use crate::collections::ItemSet;
use crate::graph::{adj_edge, adj_ok, adj_path, adj_reachable, postorder};
use crate::liveness::{edge, is_path, links_ok, reachable};
use crate::text::{decimal, push_char, push_text, signed_decimal};
use crate::types::{
    Atomic, BigNum, ConstantType, Expression, NumericType, Operator, Parameter, SpecAtomic, SpecConstant,
    SpecExpression, SpecParameter, limbs_value,
};

verus! {

broadcast use vstd::string::group_string_axioms;

// ---------------------------------------------------------------------------
// Text of instructions
// ---------------------------------------------------------------------------

/// The CVM mnemonic of an operator.
pub open spec fn cvm_operator(op: Operator) -> Seq<char> {
    match op {
        Operator::Add => "add"@,
        Operator::Sub => "sub"@,
        Operator::Mul => "mul"@,
        Operator::Div => "div"@,
        Operator::Rem => "rem"@,
        Operator::IDiv => "idiv"@,
        Operator::Pow => "pow"@,
        Operator::Greater => "gt"@,
        Operator::GreaterEqual => "ge"@,
        Operator::Less => "lt"@,
        Operator::LessEqual => "le"@,
        Operator::Equal => "eq"@,
        Operator::NotEqual => "neq"@,
        Operator::EqualZero => "eqz"@,
        Operator::And => "and"@,
        Operator::Or => "or"@,
        Operator::ShiftRight => "shr"@,
        Operator::ShiftLeft => "shl"@,
        Operator::BitAnd => "band"@,
        Operator::BitOr => "bor"@,
        Operator::BitXor => "bxor"@,
        Operator::BitNot => "bnot"@,
        Operator::Extend => "extend_i64"@,
        Operator::Wrap => "wrap_ff"@,
        Operator::Load => "load"@,
        Operator::Store => "store"@,
        Operator::MStore => "mstore"@,
        Operator::MStoreFromSignal => "mstore_from_signal"@,
        Operator::MStoreFromCmpSignal => "mstore_from_cmp_signal"@,
        Operator::GetSignal => "get_signal"@,
        Operator::GetCmpSignal => "get_cmp_signal"@,
        Operator::SetSignal => "set_signal"@,
        Operator::MSetSignal => "mset_signal"@,
        Operator::MSetSignalFromMemory => "mset_signal_from_mem"@,
        Operator::SetCmpIn => "set_cmp_input"@,
        Operator::SetCmpInCnt => "set_cmp_input_cnt"@,
        Operator::SetCmpInRun => "set_cmp_input_run"@,
        Operator::SetCmpInCntCheck => "set_cmp_input_cnt_check"@,
        Operator::MSetCmpIn => "mset_cmp_input"@,
        Operator::MSetCmpInCnt => "mset_cmp_input_cnt"@,
        Operator::MSetCmpInRun => "mset_cmp_input_run"@,
        Operator::MSetCmpInCntCheck => "mset_cmp_input_cnt_check"@,
        Operator::MSetCmpInFromCmp => "mset_cmp_input_from_cmp"@,
        Operator::MSetCmpInFromCmpCnt => "mset_cmp_input_from_cmp_cnt"@,
        Operator::MSetCmpInFromCmpRun => "mset_cmp_input_from_cmp_run"@,
        Operator::MSetCmpInFromCmpCntCheck => "mset_cmp_input_from_cmp_cnt_check"@,
        Operator::MSetCmpInFromMemory => "mset_cmp_input_from_memory"@,
        Operator::MSetCmpInFromMemoryCnt => "mset_cmp_input_from_memory_cnt"@,
        Operator::MSetCmpInFromMemoryRun => "mset_cmp_input_from_memory_run"@,
        Operator::MSetCmpInFromMemoryCntCheck => "mset_cmp_input_from_memory_cnt_check"@,
        Operator::Call => "call"@,
        Operator::MCall => "mcall"@,
        Operator::Return => "return"@,
        Operator::MReturn => "mreturn"@,
        Operator::GetTemplateId => "get_template_id"@,
        Operator::GetTemplateSignalPosition => "get_template_signal_position"@,
        Operator::GetTemplateSignalSize => "get_template_signal_size"@,
        Operator::GetTemplateSignalDim => "get_template_signal_dimension"@,
        Operator::GetTemplateSignalType => "get_template_signal_type"@,
        Operator::GetBusSignalPos => "get_bus_signal_position"@,
        Operator::GetBusSignalSize => "get_bus_signal_size"@,
        Operator::GetBusSignalDim => "get_bus_signal_dimension"@,
        Operator::GetBusSignalType => "get_bus_signal_type"@,
        Operator::Error => "error"@,
    }
}

pub fn operator_to_cvm(op: &Operator) -> (r: &'static str)
    ensures
        r@ == cvm_operator(*op),
{
    match op {
        Operator::Add => "add",
        Operator::Sub => "sub",
        Operator::Mul => "mul",
        Operator::Div => "div",
        Operator::Rem => "rem",
        Operator::IDiv => "idiv",
        Operator::Pow => "pow",
        Operator::Greater => "gt",
        Operator::GreaterEqual => "ge",
        Operator::Less => "lt",
        Operator::LessEqual => "le",
        Operator::Equal => "eq",
        Operator::NotEqual => "neq",
        Operator::EqualZero => "eqz",
        Operator::And => "and",
        Operator::Or => "or",
        Operator::ShiftRight => "shr",
        Operator::ShiftLeft => "shl",
        Operator::BitAnd => "band",
        Operator::BitOr => "bor",
        Operator::BitXor => "bxor",
        Operator::BitNot => "bnot",
        Operator::Extend => "extend_i64",
        Operator::Wrap => "wrap_ff",
        Operator::Load => "load",
        Operator::Store => "store",
        Operator::MStore => "mstore",
        Operator::MStoreFromSignal => "mstore_from_signal",
        Operator::MStoreFromCmpSignal => "mstore_from_cmp_signal",
        Operator::GetSignal => "get_signal",
        Operator::GetCmpSignal => "get_cmp_signal",
        Operator::SetSignal => "set_signal",
        Operator::MSetSignal => "mset_signal",
        Operator::MSetSignalFromMemory => "mset_signal_from_mem",
        Operator::SetCmpIn => "set_cmp_input",
        Operator::SetCmpInCnt => "set_cmp_input_cnt",
        Operator::SetCmpInRun => "set_cmp_input_run",
        Operator::SetCmpInCntCheck => "set_cmp_input_cnt_check",
        Operator::MSetCmpIn => "mset_cmp_input",
        Operator::MSetCmpInCnt => "mset_cmp_input_cnt",
        Operator::MSetCmpInRun => "mset_cmp_input_run",
        Operator::MSetCmpInCntCheck => "mset_cmp_input_cnt_check",
        Operator::MSetCmpInFromCmp => "mset_cmp_input_from_cmp",
        Operator::MSetCmpInFromCmpCnt => "mset_cmp_input_from_cmp_cnt",
        Operator::MSetCmpInFromCmpRun => "mset_cmp_input_from_cmp_run",
        Operator::MSetCmpInFromCmpCntCheck => "mset_cmp_input_from_cmp_cnt_check",
        Operator::MSetCmpInFromMemory => "mset_cmp_input_from_memory",
        Operator::MSetCmpInFromMemoryCnt => "mset_cmp_input_from_memory_cnt",
        Operator::MSetCmpInFromMemoryRun => "mset_cmp_input_from_memory_run",
        Operator::MSetCmpInFromMemoryCntCheck => "mset_cmp_input_from_memory_cnt_check",
        Operator::Call => "call",
        Operator::MCall => "mcall",
        Operator::Return => "return",
        Operator::MReturn => "mreturn",
        Operator::GetTemplateId => "get_template_id",
        Operator::GetTemplateSignalPosition => "get_template_signal_position",
        Operator::GetTemplateSignalSize => "get_template_signal_size",
        Operator::GetTemplateSignalDim => "get_template_signal_dimension",
        Operator::GetTemplateSignalType => "get_template_signal_type",
        Operator::GetBusSignalPos => "get_bus_signal_position",
        Operator::GetBusSignalSize => "get_bus_signal_size",
        Operator::GetBusSignalDim => "get_bus_signal_dimension",
        Operator::GetBusSignalType => "get_bus_signal_type",
        Operator::Error => "error",
    }
}

/// The decimal text of a finite-field constant of the given sign and limbs.
pub open spec fn ff_value(negative: bool, limbs: Seq<u32>) -> int {
    if negative {
        -(limbs_value(limbs) as int)
    } else {
        limbs_value(limbs) as int
    }
}

/// The decimal text of a big number (`BigInt::to_str_radix` of `num-bigint-dig`
/// with radix 10): its digits without leading zeros, after a minus sign when it is
/// negative.
#[verifier::external_body]
fn bignum_decimal(n: &BigNum) -> (r: String)
    ensures
        r@ == signed_decimal(n.value()),
{
    let sign = if n.negative { num_bigint_dig::Sign::Minus } else { num_bigint_dig::Sign::Plus };
    num_bigint_dig::BigInt::new(sign, n.limbs.clone()).to_str_radix(10)
}

/// Appends the decimal digits of `v`, with a minus sign when it is negative.
pub fn push_signed_decimal(s: &mut String, v: i64)
    ensures
        final(s)@ == old(s)@ + signed_decimal(v as int),
{
    if v < 0 {
        push_char(s, '-');
        let m: i128 = 0 - (v as i128);
        push_text_decimal(s, m as u64);
        proof {
            assert(old(s)@.push('-') + decimal((-(v as int)) as nat) =~= old(s)@ + signed_decimal(v as int));
        }
    } else {
        push_text_decimal(s, v as u64);
    }
}

fn push_text_decimal(s: &mut String, n: u64)
    ensures
        final(s)@ == old(s)@ + decimal(n as nat),
{
    crate::text::push_decimal(s, n);
}

/// The CVM text of an atomic.
pub open spec fn atomic_text(a: SpecAtomic) -> Seq<char> {
    match a {
        SpecAtomic::Constant(SpecConstant::I64(v)) => "i64."@ + signed_decimal(v as int),
        SpecAtomic::Constant(SpecConstant::FF(neg, limbs)) => "ff."@ + signed_decimal(ff_value(neg, limbs)),
        SpecAtomic::Variable(name) => name,
        SpecAtomic::Function(name) => "$"@ + name,
    }
}

pub fn atomic_to_cvm(a: &Atomic) -> (r: String)
    ensures
        r@ == atomic_text(a@),
{
    match a {
        Atomic::Constant(ConstantType::I64(v)) => {
            let mut s = String::new();
            push_text(&mut s, "i64.");
            push_signed_decimal(&mut s, *v);
            proof {
                assert(Seq::<char>::empty() + "i64."@ + signed_decimal(*v as int) =~= atomic_text(a@));
            }
            s
        },
        Atomic::Constant(ConstantType::FF(v)) => {
            let mut s = String::new();
            push_text(&mut s, "ff.");
            let d = bignum_decimal(v);
            push_text(&mut s, d.as_str());
            proof {
                assert(Seq::<char>::empty() + "ff."@ + d@ =~= atomic_text(a@));
            }
            s
        },
        Atomic::Variable(name) => name.clone(),
        Atomic::Function(name) => {
            let mut s = String::new();
            push_text(&mut s, "$");
            push_text(&mut s, name.as_str());
            proof {
                assert(Seq::<char>::empty() + "$"@ + name@ =~= atomic_text(a@));
            }
            s
        },
    }
}

/// The CVM text of a parameter.
pub open spec fn parameter_text(p: SpecParameter) -> Seq<char> {
    match p {
        SpecParameter::Signal { index, size } => "signal("@ + atomic_text(index) + ","@ + atomic_text(size) + ")"@,
        SpecParameter::SubcmpSignal { component, index, size } => "subcmpsignal("@ + atomic_text(component) + ","@
            + atomic_text(index) + ","@ + atomic_text(size) + ")"@,
        SpecParameter::I64Memory { index, size } => "i64.memory("@ + atomic_text(index) + ","@ + atomic_text(size)
            + ")"@,
        SpecParameter::FfMemory { index, size } => "ff.memory("@ + atomic_text(index) + ","@ + atomic_text(size)
            + ")"@,
    }
}

pub fn parameter_to_cvm(p: &Parameter) -> (r: String)
    ensures
        r@ == parameter_text(p@),
{
    let mut s = String::new();
    match p {
        Parameter::Signal { index, size } => {
            push_text(&mut s, "signal(");
            push_text(&mut s, atomic_to_cvm(index).as_str());
            push_text(&mut s, ",");
            push_text(&mut s, atomic_to_cvm(size).as_str());
            push_text(&mut s, ")");
            proof {
                assert(s@ =~= parameter_text(p@));
            }
        },
        Parameter::SubcmpSignal { component, index, size } => {
            push_text(&mut s, "subcmpsignal(");
            push_text(&mut s, atomic_to_cvm(component).as_str());
            push_text(&mut s, ",");
            push_text(&mut s, atomic_to_cvm(index).as_str());
            push_text(&mut s, ",");
            push_text(&mut s, atomic_to_cvm(size).as_str());
            push_text(&mut s, ")");
            proof {
                assert(s@ =~= parameter_text(p@));
            }
        },
        Parameter::I64Memory { index, size } => {
            push_text(&mut s, "i64.memory(");
            push_text(&mut s, atomic_to_cvm(index).as_str());
            push_text(&mut s, ",");
            push_text(&mut s, atomic_to_cvm(size).as_str());
            push_text(&mut s, ")");
            proof {
                assert(s@ =~= parameter_text(p@));
            }
        },
        Parameter::FfMemory { index, size } => {
            push_text(&mut s, "ff.memory(");
            push_text(&mut s, atomic_to_cvm(index).as_str());
            push_text(&mut s, ",");
            push_text(&mut s, atomic_to_cvm(size).as_str());
            push_text(&mut s, ")");
            proof {
                assert(s@ =~= parameter_text(p@));
            }
        },
    }
    s
}

/// The CVM text of an operand.
pub open spec fn expression_text(e: SpecExpression) -> Seq<char> {
    match e {
        SpecExpression::Atomic(a) => atomic_text(a),
        SpecExpression::Parameter(p) => parameter_text(p),
    }
}

pub fn expression_to_cvm(e: &Expression) -> (r: String)
    ensures
        r@ == expression_text(e@),
{
    match e {
        Expression::Atomic(a) => atomic_to_cvm(a),
        Expression::Parameter(p) => parameter_to_cvm(p),
    }
}

/// Texts joined with single spaces.
pub open spec fn join_spaced(s: Seq<Seq<char>>) -> Seq<char>
    decreases s.len(),
{
    if s.len() == 0 {
        Seq::empty()
    } else if s.len() == 1 {
        s[0]
    } else {
        join_spaced(s.drop_last()) + " "@ + s.last()
    }
}

/// The prefix of an instruction of the given numeric type.
pub open spec fn type_prefix(t: NumericType) -> Seq<char> {
    match t {
        NumericType::Integer => "i64."@,
        NumericType::FiniteField => "ff."@,
    }
}

/// The CVM text of a statement.
pub open spec fn statement_text(s: SpecStatement) -> Seq<char> {
    (match s.output {
        Some(out) => out + " = "@,
        None => Seq::empty(),
    }) + (match s.num_type {
        Some(t) => type_prefix(t),
        None => Seq::empty(),
    }) + (match s.operator {
        Some(op) => cvm_operator(op) + (if s.operands.len() > 0 { " "@ } else { Seq::empty() }),
        None => Seq::empty(),
    }) + join_spaced(s.operands.map_values(|e: SpecExpression| expression_text(e)))
}

pub fn statement_to_cvm(stmt: &Statement) -> (r: String)
    ensures
        r@ == statement_text(stmt@),
{
    let mut s = String::new();
    let ghost p1 = match stmt@.output {
        Some(out) => out + " = "@,
        None => Seq::<char>::empty(),
    };
    if let Some(out) = &stmt.output {
        push_text(&mut s, out.as_str());
        push_text(&mut s, " = ");
    }
    proof {
        assert(s@ =~= p1);
    }
    let ghost p2 = match stmt@.num_type {
        Some(t) => type_prefix(t),
        None => Seq::<char>::empty(),
    };
    if let Some(typ) = &stmt.num_type {
        match typ {
            NumericType::Integer => push_text(&mut s, "i64."),
            NumericType::FiniteField => push_text(&mut s, "ff."),
        }
    }
    proof {
        assert(s@ =~= p1 + p2);
    }
    let ghost p3 = match stmt@.operator {
        Some(op) => cvm_operator(op) + (if stmt@.operands.len() > 0 { " "@ } else { Seq::<char>::empty() }),
        None => Seq::<char>::empty(),
    };
    if let Some(op) = &stmt.value.operator {
        push_text(&mut s, operator_to_cvm(op));
        if stmt.value.operands.len() > 0 {
            push_char(&mut s, ' ');
        }
    }
    proof {
        reveal_strlit(" ");
        assert(stmt@.operands.len() == stmt.value.operands@.len());
        assert(s@ =~= p1 + p2 + p3);
    }
    let ghost texts = stmt@.operands.map_values(|e: SpecExpression| expression_text(e));
    let ghost prefix = s@;
    proof {
        assert(stmt@.operands.len() == stmt.value.operands@.len());
    }
    let mut i: usize = 0;
    while i < stmt.value.operands.len()
        invariant
            i <= stmt.value.operands@.len(),
            texts == stmt@.operands.map_values(|e: SpecExpression| expression_text(e)),
            stmt@.operands.len() == stmt.value.operands@.len(),
            s@ == prefix + join_spaced(texts.take(i as int)),
        decreases stmt.value.operands@.len() - i,
    {
        let ghost before = s@;
        if i > 0 {
            push_char(&mut s, ' ');
        }
        let t = expression_to_cvm(&stmt.value.operands[i]);
        push_text(&mut s, t.as_str());
        proof {
            reveal_strlit(" ");
            assert(texts[i as int] == t@);
            let tk = texts.take(i + 1);
            assert(tk.drop_last() =~= texts.take(i as int));
            if i == 0 {
                assert(join_spaced(tk) == tk[0]);
                assert(join_spaced(texts.take(0)) =~= Seq::<char>::empty());
                assert(s@ =~= prefix + join_spaced(tk));
            } else {
                assert(join_spaced(tk) == join_spaced(tk.drop_last()) + " "@ + tk.last());
                assert(s@ =~= prefix + join_spaced(tk));
            }
        }
        i = i + 1;
    }
    proof {
        assert(texts.take(stmt.value.operands@.len() as int) =~= texts);
    }
    s
}

// ---------------------------------------------------------------------------
// Dominance (Cooper-Harvey-Kennedy)
// ---------------------------------------------------------------------------

/// The successor lists of the blocks.
fn successor_lists(blocks: &Vec<BasicBlock>) -> (adj: Vec<Vec<usize>>)
    requires
        links_ok(blocks@),
    ensures
        adj@.len() == blocks@.len(),
        forall|i: int| 0 <= i < blocks@.len() ==> (#[trigger] adj@[i])@ == succ_targets(blocks@[i].successors),
        adj_ok(adj@),
{
    let mut adj: Vec<Vec<usize>> = Vec::new();
    let mut i: usize = 0;
    while i < blocks.len()
        invariant
            i <= blocks@.len(),
            adj@.len() == i,
            forall|k: int| 0 <= k < i ==> (#[trigger] adj@[k])@ == succ_targets(blocks@[k].successors),
        decreases blocks@.len() - i,
    {
        adj.push(targets_of(&blocks[i].successors));
        i = i + 1;
    }
    proof {
        assert forall|a: int, j: int| 0 <= a < adj@.len() && 0 <= j < adj@[a]@.len() implies #[trigger] adj@[a]@[j] < adj@.len() by {
            assert(blocks@[a].links_below(blocks@.len()));
            assert(succ_targets(blocks@[a].successors)[j] < blocks@.len());
        }
    }
    adj
}

proof fn lemma_same_reach(blocks: Seq<BasicBlock>, adj: Seq<Vec<usize>>, from: usize, to: usize)
    requires
        adj.len() == blocks.len(),
        forall|i: int| 0 <= i < blocks.len() ==> (#[trigger] adj[i])@ == succ_targets(blocks[i].successors),
    ensures
        reachable(blocks, from, to) <==> adj_reachable(adj, from, to),
{
    assert forall|a: usize, b: usize| edge(blocks, a, b) <==> adj_edge(adj, a, b) by {
        if a < blocks.len() {
            assert(adj[a as int]@ == succ_targets(blocks[a as int].successors));
        }
    }
    assert forall|p: Seq<usize>| is_path(blocks, p) <==> adj_path(adj, p) by {
        if is_path(blocks, p) {
            assert forall|i: int| 0 <= i < p.len() - 1 implies #[trigger] adj_edge(adj, p[i], p[i + 1]) by {
                assert(edge(blocks, p[i], p[i + 1]));
            }
        }
        if adj_path(adj, p) {
            assert forall|i: int| 0 <= i < p.len() - 1 implies #[trigger] edge(blocks, p[i], p[i + 1]) by {
                assert(adj_edge(adj, p[i], p[i + 1]));
            }
        }
    }
    if reachable(blocks, from, to) {
        let p = choose|p: Seq<usize>| #[trigger] is_path(blocks, p) && p[0] == from && p.last() == to;
        assert(adj_path(adj, p));
    }
    if adj_reachable(adj, from, to) {
        let p = choose|p: Seq<usize>| #[trigger] adj_path(adj, p) && p[0] == from && p.last() == to;
        assert(is_path(blocks, p));
    }
}

/// The blocks reachable from `entry`, in reverse postorder of a depth-first walk
/// that follows each block's successors in order.
pub fn reverse_postorder(blocks: &Vec<BasicBlock>, entry: usize) -> (order: Vec<usize>)
    requires
        links_ok(blocks@),
        entry < blocks@.len(),
    ensures
        order@.no_duplicates(),
        order@.len() > 0,
        order@[0] == entry,
        forall|x: usize| #[trigger] order@.contains(x) <==> reachable(blocks@, entry, x),
        forall|r: int|
            0 <= r < order@.len() && order@[r] != entry ==> exists|q: int| 0 <= q < r && #[trigger] edge(blocks@, order@[q], order@[r]),
{
    let adj = successor_lists(blocks);
    let post = postorder(&adj, entry);
    let mut order: Vec<usize> = Vec::new();
    let mut i: usize = post.len();
    while i > 0
        invariant
            i <= post@.len(),
            order@.len() == post@.len() - i,
            forall|k: int| 0 <= k < order@.len() ==> #[trigger] order@[k] == post@[post@.len() - 1 - k],
        decreases i,
    {
        i = i - 1;
        order.push(post[i]);
    }
    proof {
        assert(order@ =~= post@.reverse());
        assert forall|x: usize| #[trigger] order@.contains(x) <==> post@.contains(x) by {
            if order@.contains(x) {
                let k = choose|k: int| 0 <= k < order@.len() && order@[k] == x;
                assert(post@[post@.len() - 1 - k] == x);
            }
            if post@.contains(x) {
                let k = choose|k: int| 0 <= k < post@.len() && post@[k] == x;
                assert(order@[post@.len() - 1 - k] == x);
            }
        }
        assert forall|x: usize| #[trigger] order@.contains(x) <==> reachable(blocks@, entry, x) by {
            lemma_same_reach(blocks@, adj@, entry, x);
        }
        assert forall|p: int, q: int| 0 <= p < order@.len() && 0 <= q < order@.len() && p != q implies order@[p] != order@[q] by {
            assert(order@[p] == post@[post@.len() - 1 - p]);
            assert(order@[q] == post@[post@.len() - 1 - q]);
        }
        assert forall|r: int| 0 <= r < order@.len() && order@[r] != entry implies exists|q: int|
            0 <= q < r && #[trigger] edge(blocks@, order@[q], order@[r]) by {
            let i = post@.len() - 1 - r;
            assert(post@[i] == order@[r]);
            let j = choose|j: int| i < j < post@.len() && #[trigger] adj_edge(adj@, post@[j], post@[i]);
            let q = post@.len() - 1 - j;
            assert(order@[q] == post@[j]);
            assert(adj@[post@[j] as int]@ == succ_targets(blocks@[post@[j] as int].successors));
            assert(edge(blocks@, order@[q], order@[r]));
        }
    }
    order
}

/// A table of immediate dominators: one entry per block, every named block exists.
pub open spec fn idom_ok(idom: Seq<Option<usize>>) -> bool {
    forall|b: int| 0 <= b < idom.len() && (#[trigger] idom[b]).is_some() ==> idom[b].unwrap() < idom.len()
}

/// Whether `r` lies on the chain of dominators that starts at `b` (`b` itself included).
pub open spec fn on_idom_chain(idom: Seq<Option<usize>>, b: usize, r: usize) -> bool {
    exists|k: nat| #[trigger] ancestor(idom, b, k) == Some(r)
}

/// The numbers order the blocks, each one below the table's length, and a block's
/// dominator has a smaller number than the block; the table is short enough for
/// two walks up it to be counted in a `usize`.
pub open spec fn idom_numbered(idom: Seq<Option<usize>>, rpo_number: Seq<usize>) -> bool {
    &&& rpo_number.len() == idom.len()
    &&& idom.len() <= (usize::MAX - 2) / 2
    &&& forall|i: int| 0 <= i < idom.len() ==> #[trigger] rpo_number[i] < idom.len()
    &&& forall|i: int, j: int| 0 <= i < idom.len() && 0 <= j < idom.len() && i != j ==> #[trigger] rpo_number[i] != #[trigger] rpo_number[j]
    &&& forall|i: int| 0 <= i < idom.len() && (#[trigger] idom[i]).is_some() ==> rpo_number[idom[i].unwrap() as int] < rpo_number[i]
}

/// The common dominator of `a` and `b`: walk up from the later of the two, in
/// reverse postorder, until they meet. The walk takes at most twice as many steps
/// as there are blocks, and stops early at a block without a dominator.
fn intersect(a: usize, b: usize, idom: &Vec<Option<usize>>, rpo_number: &Vec<usize>) -> (r: usize)
    requires
        idom_ok(idom@),
        rpo_number@.len() == idom@.len(),
        a < idom@.len(),
        b < idom@.len(),
    ensures
        r < idom@.len(),
        on_idom_chain(idom@, a, r) || on_idom_chain(idom@, b, r),
        a == b ==> r == a,
        idom_numbered(idom@, rpo_number@) ==> (on_idom_chain(idom@, a, r) && on_idom_chain(idom@, b, r)) || idom@[r as int].is_none(),
{
    let ghost numbered = idom_numbered(idom@, rpo_number@);
    let ghost mut ka: nat = 0;
    let ghost mut kb: nat = 0;
    let n = idom.len();
    let bound: usize = if n <= (usize::MAX - 2) / 2 { 2 * n + 2 } else { usize::MAX };
    let mut x = a;
    let mut y = b;
    let mut steps: usize = 0;
    proof {
        if numbered {
            assert(rpo_number@[a as int] < n && rpo_number@[b as int] < n);
        }
        assert(ancestor(idom@, a, 0) == Some(a));
        assert(ancestor(idom@, b, 0) == Some(b));
    }
    while x != y && steps < bound
        invariant
            idom_ok(idom@),
            rpo_number@.len() == idom@.len(),
            n == idom@.len(),
            x < n,
            y < n,
            steps <= bound,
            ancestor(idom@, a, ka) == Some(x),
            ancestor(idom@, b, kb) == Some(y),
            a == b ==> x == a && y == b,
            numbered == idom_numbered(idom@, rpo_number@),
            numbered ==> steps + rpo_number@[x as int] + rpo_number@[y as int] <= rpo_number@[a as int] + rpo_number@[b as int],
            numbered ==> bound == 2 * n + 2 && rpo_number@[a as int] < n && rpo_number@[b as int] < n,
        decreases bound - steps,
    {
        let before = steps;
        let ghost x0 = x;
        let ghost y0 = y;
        while rpo_number[x] > rpo_number[y] && steps < bound
            invariant
                idom_ok(idom@),
                rpo_number@.len() == idom@.len(),
                n == idom@.len(),
                x < n,
                y < n,
                before <= steps <= bound,
                ancestor(idom@, a, ka) == Some(x),
                ancestor(idom@, b, kb) == Some(y),
                a != b,
                numbered == idom_numbered(idom@, rpo_number@),
                numbered ==> steps + rpo_number@[x as int] + rpo_number@[y as int] <= rpo_number@[a as int] + rpo_number@[b as int],
                numbered ==> bound == 2 * n + 2 && rpo_number@[a as int] < n && rpo_number@[b as int] < n,
                steps == before ==> x == x0 && y == y0,
                x0 != y0,
            decreases bound - steps,
        {
            match idom[x] {
                Some(d) => {
                    proof {
                        assert(ancestor(idom@, a, ka + 1) == Some(d));
                        ka = ka + 1;
                        if numbered {
                            assert(idom@[x as int].is_some());
                        }
                    }
                    x = d;
                },
                None => {
                    proof {
                        assert(on_idom_chain(idom@, a, x));
                    }
                    return x;
                },
            }
            steps = steps + 1;
        }
        while rpo_number[y] > rpo_number[x] && steps < bound
            invariant
                idom_ok(idom@),
                rpo_number@.len() == idom@.len(),
                n == idom@.len(),
                x < n,
                y < n,
                before <= steps <= bound,
                ancestor(idom@, a, ka) == Some(x),
                ancestor(idom@, b, kb) == Some(y),
                a != b,
                numbered == idom_numbered(idom@, rpo_number@),
                numbered ==> steps + rpo_number@[x as int] + rpo_number@[y as int] <= rpo_number@[a as int] + rpo_number@[b as int],
                numbered ==> bound == 2 * n + 2 && rpo_number@[a as int] < n && rpo_number@[b as int] < n,
                steps == before ==> x == x0 && y == y0 && (numbered ==> rpo_number@[x as int] <= rpo_number@[y as int]),
                x0 != y0,
            decreases bound - steps,
        {
            match idom[y] {
                Some(d) => {
                    proof {
                        assert(ancestor(idom@, b, kb + 1) == Some(d));
                        kb = kb + 1;
                        if numbered {
                            assert(idom@[y as int].is_some());
                        }
                    }
                    y = d;
                },
                None => {
                    proof {
                        assert(on_idom_chain(idom@, b, y));
                    }
                    return y;
                },
            }
            steps = steps + 1;
        }
        if steps == before {
            // Neither side moved: the two blocks have the same number.
            proof {
                assert(on_idom_chain(idom@, a, x));
                if numbered {
                    assert(rpo_number@[x as int] != rpo_number@[y as int]);
                }
            }
            return x;
        }
    }
    proof {
        assert(on_idom_chain(idom@, a, x));
        if x == y {
            assert(on_idom_chain(idom@, b, x));
        }
    }
    x
}

/// A block after the first in reverse postorder has a predecessor earlier in the
/// order; where the earlier blocks all have a dominator, so does that predecessor.
proof fn lemma_parent_has_idom(blocks: Seq<BasicBlock>, rpo: Seq<usize>, idom: Seq<Option<usize>>, k: int) -> (jj: int)
    requires
        preds_listed(blocks),
        0 <= k < rpo.len(),
        rpo[k] != rpo[0],
        rpo[k] < blocks.len(),
        forall|r: int| 0 <= r < rpo.len() && #[trigger] rpo[r] != rpo[0] ==> exists|q: int| 0 <= q < r && #[trigger] edge(blocks, rpo[q], rpo[r]),
        forall|kk: int| 0 <= kk < k ==> (#[trigger] idom[rpo[kk] as int]).is_some(),
    ensures
        0 <= jj < blocks[rpo[k] as int].predecessors@.len(),
        idom[blocks[rpo[k] as int].predecessors@[jj] as int].is_some(),
{
    let b = rpo[k];
    let q = choose|q: int| 0 <= q < k && #[trigger] edge(blocks, rpo[q], rpo[k]);
    let a = rpo[q];
    assert(idom[a as int].is_some());
    let jt = choose|jt: int| 0 <= jt < succ_targets(blocks[a as int].successors).len() && succ_targets(blocks[a as int].successors)[jt] == b;
    assert(blocks[succ_targets(blocks[a as int].successors)[jt] as int].predecessors@.contains(a));
    let jj = choose|jj: int| 0 <= jj < blocks[b as int].predecessors@.len() && blocks[b as int].predecessors@[jj] == a;
    jj
}

/// Gives block `b` the common dominator of its predecessors that have one, and says
/// whether its entry changed.
fn update_idom(block: &BasicBlock, b: usize, idom: &mut Vec<Option<usize>>, rpo_number: &Vec<usize>) -> (changed: bool)
    requires
        b < old(idom)@.len(),
        block.links_below(old(idom)@.len() as nat),
        idom_ok(old(idom)@),
        rpo_number@.len() == old(idom)@.len(),
    ensures
        final(idom)@.len() == old(idom)@.len(),
        idom_ok(final(idom)@),
        forall|x: int| 0 <= x < old(idom)@.len() && x != b ==> #[trigger] final(idom)@[x] == old(idom)@[x],
        forall|jj: int|
            0 <= jj < block.predecessors@.len() && (#[trigger] old(idom)@[block.predecessors@[jj] as int]).is_some()
                ==> final(idom)@[b as int].is_some(),
        changed == (final(idom)@ != old(idom)@),
{
    let n = idom.len();
    let mut new_idom: Option<usize> = None;
    let preds = &block.predecessors;
    let mut j: usize = 0;
    while j < preds.len()
        invariant
            n == idom@.len(),
            b < n,
            *preds == block.predecessors,
            block.links_below(n as nat),
            idom@ == old(idom)@,
            rpo_number@.len() == n,
            idom_ok(idom@),
            j <= preds@.len(),
            new_idom matches Some(d) ==> d < n,
            forall|jj: int| 0 <= jj < j && (#[trigger] idom@[preds@[jj] as int]).is_some() ==> new_idom.is_some(),
        decreases preds@.len() - j,
    {
        let pred = preds[j];
        if idom[pred].is_some() {
            new_idom = Some(match new_idom {
                None => pred,
                Some(cur) => intersect(cur, pred, &idom, &rpo_number),
            });
        }
        j = j + 1;
    }
    let differs = match (new_idom, idom[b]) {
        (Some(x), Some(y)) => x != y,
        (None, None) => false,
        _ => true,
    };
    if differs {
        idom.set(b, new_idom);
        proof {
            assert(idom@[b as int] != old(idom)@[b as int]);
        }
    } else {
        proof {
            assert(new_idom == old(idom)@[b as int]);
        }
    }
    differs
}

/// Immediate dominators by the iterative algorithm of Cooper, Harvey and Kennedy:
/// the blocks are visited in reverse postorder, each taking the common dominator of
/// its predecessors that have one, until a round changes nothing. A block has a
/// dominator exactly when it is reachable from `entry` (where every edge is listed
/// among the predecessors of its target), and the entry is its own.
#[verifier::rlimit(60)]
#[verifier::spinoff_prover]
pub fn compute_idom(blocks: &Vec<BasicBlock>, entry: usize) -> (idom: Vec<Option<usize>>)
    requires
        links_ok(blocks@),
        entry < blocks@.len(),
    ensures
        idom@.len() == blocks@.len(),
        idom_ok(idom@),
        idom@[entry as int] == Some(entry),
        forall|b: int| 0 <= b < blocks@.len() && (#[trigger] idom@[b]).is_some() ==> reachable(blocks@, entry, b as usize),
        preds_listed(blocks@) ==> forall|b: int|
            0 <= b < blocks@.len() && reachable(blocks@, entry, b as usize) ==> (#[trigger] idom@[b]).is_some(),
{
    let n = blocks.len();
    let rpo = reverse_postorder(blocks, entry);
    let mut rpo_number: Vec<usize> = Vec::new();
    let mut idom: Vec<Option<usize>> = Vec::new();
    let mut i: usize = 0;
    while i < n
        invariant
            n == blocks@.len(),
            i <= n,
            rpo_number@.len() == i,
            idom@.len() == i,
            forall|k: int| 0 <= k < i ==> (#[trigger] idom@[k]).is_none(),
        decreases n - i,
    {
        rpo_number.push(0);
        idom.push(None);
        i = i + 1;
    }
    let mut i: usize = 0;
    while i < rpo.len()
        invariant
            n == blocks@.len(),
            links_ok(blocks@),
            entry < n,
            rpo_number@.len() == n,
            i <= rpo@.len(),
            forall|x: usize| #[trigger] rpo@.contains(x) <==> reachable(blocks@, entry, x),
        decreases rpo@.len() - i,
    {
        let b = rpo[i];
        proof {
            assert(rpo@.contains(b));
            crate::liveness::lemma_reachable_below(blocks@, entry, b);
        }
        rpo_number.set(b, i);
        i = i + 1;
    }
    idom.set(entry, Some(entry));
    proof {
        crate::liveness::lemma_reachable_refl(blocks@, entry);
        assert(rpo@.contains(entry));
        assert forall|b: int| 0 <= b < n && (#[trigger] idom@[b]).is_some() implies rpo@.contains(b as usize) by {
            if b != entry {
                assert(idom@[b].is_none());
            }
        }
        assert forall|kk: int| 0 <= kk < rpo@.len() implies #[trigger] rpo@[kk] < n by {
            assert(rpo@.contains(rpo@[kk]));
            crate::liveness::lemma_reachable_below(blocks@, entry, rpo@[kk]);
        }
    }
    let limit: usize = if n < usize::MAX - 3 { n + 3 } else { usize::MAX };
    let mut rounds: usize = 0;
    let mut changed = true;
    while changed && rounds < limit
        invariant
            n == blocks@.len(),
            links_ok(blocks@),
            entry < n,
            idom@.len() == n,
            rpo_number@.len() == n,
            idom_ok(idom@),
            idom@[entry as int] == Some(entry),
            forall|x: usize| #[trigger] rpo@.contains(x) <==> reachable(blocks@, entry, x),
            forall|kk: int| 0 <= kk < rpo@.len() ==> #[trigger] rpo@[kk] < n,
            rpo@.no_duplicates(),
            rpo@.len() > 0,
            rpo@[0] == entry,
            forall|r: int|
                0 <= r < rpo@.len() && rpo@[r] != entry ==> exists|q: int| 0 <= q < r && #[trigger] edge(blocks@, rpo@[q], rpo@[r]),
            forall|b: int| 0 <= b < n && (#[trigger] idom@[b]).is_some() ==> rpo@.contains(b as usize),
            limit > 0,
            rounds == 0 ==> changed,
            rounds > 0 && preds_listed(blocks@) ==> forall|k: int| 0 <= k < rpo@.len() ==> (#[trigger] idom@[rpo@[k] as int]).is_some(),
            rounds <= limit,
        decreases limit - rounds,
    {
        changed = false;
        rounds = rounds + 1;
        let mut k: usize = 0;
        while k < rpo.len()
            invariant
                n == blocks@.len(),
                links_ok(blocks@),
                entry < n,
                idom@.len() == n,
                rpo_number@.len() == n,
                idom_ok(idom@),
                idom@[entry as int] == Some(entry),
                forall|kk: int| 0 <= kk < rpo@.len() ==> #[trigger] rpo@[kk] < n,
                rpo@.no_duplicates(),
                rpo@.len() > 0,
                rpo@[0] == entry,
                forall|r: int|
                    0 <= r < rpo@.len() && rpo@[r] != entry ==> exists|q: int| 0 <= q < r && #[trigger] edge(blocks@, rpo@[q], rpo@[r]),
                forall|b: int| 0 <= b < n && (#[trigger] idom@[b]).is_some() ==> rpo@.contains(b as usize),
                preds_listed(blocks@) ==> forall|kk: int| 0 <= kk < k ==> (#[trigger] idom@[rpo@[kk] as int]).is_some(),
                k <= rpo@.len(),
            decreases rpo@.len() - k,
        {
            let b = rpo[k];
            let ghost idom0 = idom@;
            if b != entry {
                proof {
                    assert(blocks@[b as int].links_below(n as nat));
                }
                if update_idom(&blocks[b], b, &mut idom, &rpo_number) {
                    changed = true;
                }
                proof {
                    if preds_listed(blocks@) {
                        let jj = lemma_parent_has_idom(blocks@, rpo@, idom0, k as int);
                        assert(idom0[blocks@[b as int].predecessors@[jj] as int].is_some());
                    }
                }
            }
            proof {
                assert forall|kk: int| 0 <= kk < rpo@.len() && kk != k implies #[trigger] idom@[rpo@[kk] as int] == idom0[rpo@[kk] as int] by {
                    assert(rpo@[kk] != rpo@[k as int]);
                }
                if preds_listed(blocks@) {
                    assert(idom@[b as int].is_some());
                    assert forall|kk: int| 0 <= kk < k + 1 implies (#[trigger] idom@[rpo@[kk] as int]).is_some() by {
                        if kk < k {
                            assert(idom0[rpo@[kk] as int].is_some());
                        }
                    }
                }
                assert forall|bb: int| 0 <= bb < n && (#[trigger] idom@[bb]).is_some() implies rpo@.contains(bb as usize) by {
                    if bb != b {
                        assert(idom@[bb] == idom0[bb]);
                    } else {
                        assert(rpo@[k as int] == b);
                    }
                }
            }
            k = k + 1;
        }
    }
    proof {
        assert(rounds > 0);
        if preds_listed(blocks@) {
            assert forall|b: int| 0 <= b < blocks@.len() && reachable(blocks@, entry, b as usize) implies (#[trigger] idom@[b]).is_some() by {
                assert(rpo@.contains(b as usize));
                let k = choose|k: int| 0 <= k < rpo@.len() && rpo@[k] == b as usize;
                assert(idom@[rpo@[k] as int].is_some());
            }
        }
        assert forall|b: int| 0 <= b < blocks@.len() && (#[trigger] idom@[b]).is_some() implies reachable(blocks@, entry, b as usize) by {
            assert(rpo@.contains(b as usize));
        }
    }
    idom
}

/// The `k`-th dominator above `b`: `None` where the chain stops.
pub open spec fn ancestor(idom: Seq<Option<usize>>, b: usize, k: nat) -> Option<usize>
    decreases k,
{
    if k == 0 {
        Some(b)
    } else {
        match ancestor(idom, b, (k - 1) as nat) {
            Some(c) => if c < idom.len() {
                idom[c as int]
            } else {
                None
            },
            None => None,
        }
    }
}

proof fn lemma_ancestor_fixed(idom: Seq<Option<usize>>, b: usize, k: nat, m: nat, c: usize)
    requires
        ancestor(idom, b, k) == Some(c),
        c < idom.len(),
        idom[c as int] == Some(c),
        k <= m,
    ensures
        ancestor(idom, b, m) == Some(c),
    decreases m - k,
{
    if k < m {
        lemma_ancestor_fixed(idom, b, k, (m - 1) as nat, c);
    }
}

/// Whether `a` dominates `b`: `a` is `b`, or one of the first dominators above `b`,
/// as many as there are blocks.
pub fn dominates(a: usize, b: usize, idom: &Vec<Option<usize>>) -> (r: bool)
    ensures
        r == (a == b || exists|k: nat| 1 <= k <= idom@.len() && #[trigger] ancestor(idom@, b, k) == Some(a)),
{
    if a == b {
        return true;
    }
    let n = idom.len();
    let mut cur = b;
    let mut steps: usize = 0;
    while steps < n
        invariant
            n == idom@.len(),
            a != b,
            steps <= n,
            ancestor(idom@, b, steps as nat) == Some(cur),
            forall|k: nat| 1 <= k <= steps ==> #[trigger] ancestor(idom@, b, k) != Some(a),
        decreases n - steps,
    {
        if cur >= n {
            proof {
                assert forall|k: nat| 1 <= k <= idom@.len() implies #[trigger] ancestor(idom@, b, k) != Some(a) by {
                    if k > steps {
                        lemma_ancestor_none(idom@, b, steps as nat, k);
                    }
                }
            }
            return false;
        }
        match idom[cur] {
            Some(d) => {
                proof {
                    assert(ancestor(idom@, b, (steps + 1) as nat) == Some(d));
                }
                if d == a {
                    return true;
                }
                if d == cur {
                    proof {
                        assert forall|k: nat| 1 <= k <= idom@.len() implies #[trigger] ancestor(idom@, b, k) != Some(a) by {
                            if k > steps {
                                lemma_ancestor_fixed(idom@, b, steps as nat, k, cur);
                            }
                        }
                    }
                    return false;
                }
                cur = d;
            },
            None => {
                proof {
                    assert(ancestor(idom@, b, (steps + 1) as nat).is_none());
                    assert forall|k: nat| 1 <= k <= idom@.len() implies #[trigger] ancestor(idom@, b, k) != Some(a) by {
                        if k > steps + 1 {
                            lemma_ancestor_none(idom@, b, (steps + 1) as nat, k);
                        }
                    }
                }
                return false;
            },
        }
        steps = steps + 1;
    }
    false
}

proof fn lemma_ancestor_none(idom: Seq<Option<usize>>, b: usize, k: nat, m: nat)
    requires
        ancestor(idom, b, k).is_none() || (ancestor(idom, b, k) matches Some(c) && c >= idom.len()),
        k < m,
    ensures
        ancestor(idom, b, m).is_none(),
    decreases m - k,
{
    if k + 1 < m {
        lemma_ancestor_none(idom, b, k + 1, m);
    }
}

// ---------------------------------------------------------------------------
// Natural loops
// ---------------------------------------------------------------------------

/// A natural loop: its header, the block that control reaches when the loop ends,
/// and its body (a flag for each block).
pub struct LoopInfo {
    pub header: usize,
    pub exit: usize,
    pub body: Vec<bool>,
}

/// The exit of a loop whose header ends in a conditional: its first successor
/// outside the body, or the header itself when both are inside.
pub open spec fn conditional_exit(to_then: usize, to_else: usize, body: Seq<bool>, header: usize) -> usize {
    if !body[to_then as int] {
        to_then
    } else if !body[to_else as int] {
        to_else
    } else {
        header
    }
}

/// A loop found in `blocks`: its header and exit exist, its body has a flag for
/// each block and holds the header, and its exit is the header's first successor
/// outside the body where the header ends in a conditional, else the header or a
/// successor outside the body of a block of the body.
pub open spec fn loop_ok(blocks: Seq<BasicBlock>, l: LoopInfo) -> bool {
    &&& l.header < blocks.len()
    &&& l.exit < blocks.len()
    &&& l.body@.len() == blocks.len()
    &&& l.body@[l.header as int]
    &&& match blocks[l.header as int].successors {
        Some(Successor::Conditional { to_then, to_else, .. }) => l.exit == conditional_exit(
            to_then,
            to_else,
            l.body@,
            l.header,
        ),
        _ => l.exit == l.header || exists|b: int| 0 <= b < blocks.len() && l.body@[b] && #[trigger] succ_targets(
            blocks[b].successors,
        ).contains(l.exit) && !l.body@[l.exit as int],
    }
}

/// A walk backwards along predecessor lists: each block of `p` but the last is a
/// block other than `header` that lists the next one among its predecessors.
pub open spec fn pred_walk(blocks: Seq<BasicBlock>, header: usize, p: Seq<usize>) -> bool {
    &&& p.len() > 0
    &&& forall|i: int|
        0 <= i < p.len() - 1 ==> p[i] != header && p[i] < blocks.len() && (#[trigger] blocks[p[i] as int]).predecessors@.contains(
            p[i + 1],
        )
}

/// `x` belongs to the natural loop of the back edge `tail -> header`: it is the
/// header, or the tail reaches it by walking back along predecessors without
/// passing the header.
pub open spec fn in_natural_loop(blocks: Seq<BasicBlock>, header: usize, tail: usize, x: usize) -> bool {
    x == header || walk_reaches(blocks, header, tail, x)
}

/// The tail reaches `x` by walking back along predecessors without passing the header.
pub open spec fn walk_reaches(blocks: Seq<BasicBlock>, header: usize, tail: usize, x: usize) -> bool {
    exists|p: Seq<usize>| #[trigger] pred_walk(blocks, header, p) && p[0] == tail && p.last() == x
}

proof fn lemma_walk_extend(blocks: Seq<BasicBlock>, header: usize, p: Seq<usize>, q: usize)
    requires
        pred_walk(blocks, header, p),
        p.last() != header,
        p.last() < blocks.len(),
        blocks[p.last() as int].predecessors@.contains(q),
    ensures
        pred_walk(blocks, header, p.push(q)),
        p.push(q)[0] == p[0],
        p.push(q).last() == q,
{
    let r = p.push(q);
    assert forall|i: int| 0 <= i < r.len() - 1 implies r[i] != header && r[i] < blocks.len() && (#[trigger] blocks[r[i] as int]).predecessors@.contains(
        r[i + 1],
    ) by {
        if i < p.len() - 1 {
            assert(r[i] == p[i] && r[i + 1] == p[i + 1]);
            assert(blocks[p[i] as int].predecessors@.contains(p[i + 1]));
        } else {
            assert(r[i] == p.last());
        }
    }
}

/// A set of blocks that holds `p[0]` and, with each block but the header, all its
/// predecessors, holds every block of the walk `p`.
proof fn lemma_walk_closed(blocks: Seq<BasicBlock>, header: usize, body: Seq<bool>, p: Seq<usize>)
    requires
        pred_walk(blocks, header, p),
        body.len() == blocks.len(),
        p[0] < blocks.len(),
        body[p[0] as int],
        forall|x: int, j: int|
            0 <= x < blocks.len() && body[x] && x != header && 0 <= j < blocks[x].predecessors@.len()
                ==> #[trigger] blocks[x].predecessors@[j] < blocks.len() && body[blocks[x].predecessors@[j] as int],
    ensures
        p.last() < blocks.len(),
        body[p.last() as int],
    decreases p.len(),
{
    if p.len() > 1 {
        let d = p.drop_last();
        assert forall|i: int| 0 <= i < d.len() - 1 implies d[i] != header && d[i] < blocks.len() && (#[trigger] blocks[d[i] as int]).predecessors@.contains(
            d[i + 1],
        ) by {
            assert(d[i] == p[i] && d[i + 1] == p[i + 1]);
            assert(blocks[p[i] as int].predecessors@.contains(p[i + 1]));
        }
        lemma_walk_closed(blocks, header, body, d);
        let i = p.len() - 2;
        assert(d.last() == p[i]);
        assert(blocks[p[i] as int].predecessors@.contains(p[i + 1]));
        let j = choose|j: int| 0 <= j < blocks[p[i] as int].predecessors@.len() && blocks[p[i] as int].predecessors@[j] == p[i + 1];
        assert(blocks[p[i] as int].predecessors@[j] < blocks.len());
    }
}

/// The body of the natural loop of the back edge `tail -> header`: the header and
/// every block from which the tail is reached without passing the header.
fn loop_body(blocks: &Vec<BasicBlock>, header: usize, tail: usize) -> (body: Vec<bool>)
    requires
        links_ok(blocks@),
        header < blocks@.len(),
        tail < blocks@.len(),
    ensures
        body@.len() == blocks@.len(),
        forall|x: int| 0 <= x < blocks@.len() ==> #[trigger] body@[x] == in_natural_loop(blocks@, header, tail, x as usize),
{
    let n = blocks.len();
    let mut body: Vec<bool> = Vec::new();
    let mut i: usize = 0;
    while i < n
        invariant
            n == blocks@.len(),
            i <= n,
            body@.len() == i,
            forall|x: int| 0 <= x < i ==> !(#[trigger] body@[x]),
        decreases n - i,
    {
        body.push(false);
        i = i + 1;
    }
    body.set(header, true);
    let mut stack: Vec<usize> = Vec::new();
    stack.push(tail);
    proof {
        let p = seq![tail];
        assert(pred_walk(blocks@, header, p));
        assert(stack@[0] == tail);
    }
    while stack.len() > 0
        invariant
            n == blocks@.len(),
            links_ok(blocks@),
            header < n,
            tail < n,
            body@.len() == n,
            body@[header as int],
            forall|k: int| 0 <= k < stack@.len() ==> #[trigger] stack@[k] < n,
            body@[tail as int] || stack@.contains(tail),
            forall|x: int| 0 <= x < n && #[trigger] body@[x] ==> in_natural_loop(blocks@, header, tail, x as usize),
            forall|k: int|
                0 <= k < stack@.len() ==> walk_reaches(blocks@, header, tail, #[trigger] stack@[k]),
            forall|x: int, j: int|
                0 <= x < n && body@[x] && x != header && 0 <= j < blocks@[x].predecessors@.len() ==> #[trigger] body@[blocks@[x].predecessors@[j] as int]
                    || stack@.contains(blocks@[x].predecessors@[j]),
        decreases crate::liveness::count_false(body@), stack@.len(),
    {
        let ghost st0 = stack@;
        let ghost b0 = body@;
        let node = stack.pop().unwrap();
        proof {
            assert(stack@ =~= st0.drop_last());
            assert(node == st0.last());
            assert(st0[st0.len() - 1] == node);
            assert forall|y: usize| #[trigger] st0.contains(y) implies stack@.contains(y) || y == node by {
                let k = choose|k: int| 0 <= k < st0.len() && st0[k] == y;
                if k < st0.len() - 1 {
                    assert(stack@[k] == y);
                }
            }
        }
        if !body[node] {
            proof {
                crate::liveness::lemma_count_false_set(body@, node as int);
                assert(blocks@[node as int].links_below(n as nat));
            }
            body.set(node, true);
            let preds = &blocks[node].predecessors;
            let ghost walk = choose|p: Seq<usize>| #[trigger] pred_walk(blocks@, header, p) && p[0] == tail && p.last() == node;
            proof {
                assert(walk_reaches(blocks@, header, tail, st0[st0.len() - 1]));
                assert(node != header);
            }
            let ghost s1 = stack@;
            let mut j: usize = 0;
            while j < preds.len()
                invariant
                    n == blocks@.len(),
                    links_ok(blocks@),
                    header < n,
                    node < n,
                    node != header,
                    *preds == blocks@[node as int].predecessors,
                    blocks@[node as int].links_below(n as nat),
                    pred_walk(blocks@, header, walk),
                    walk[0] == tail,
                    walk.last() == node,
                    j <= preds@.len(),
                    forall|k: int| 0 <= k < stack@.len() ==> #[trigger] stack@[k] < n,
                    stack@.len() == s1.len() + j,
                    forall|k: int| 0 <= k < s1.len() ==> #[trigger] stack@[k] == s1[k],
                    forall|k: int| 0 <= k < j ==> stack@[s1.len() + k] == #[trigger] preds@[k],
                    forall|k: int|
                        0 <= k < stack@.len() ==> walk_reaches(blocks@, header, tail, #[trigger] stack@[k]),
                decreases preds@.len() - j,
            {
                proof {
                    assert(preds@.contains(preds@[j as int]));
                    lemma_walk_extend(blocks@, header, walk, preds@[j as int]);
                }
                let ghost s2 = stack@;
                stack.push(preds[j]);
                proof {
                    assert forall|k: int| 0 <= k < stack@.len() implies walk_reaches(blocks@, header, tail, #[trigger] stack@[k]) by {
                        if k < s2.len() {
                            assert(stack@[k] == s2[k]);
                        } else {
                            assert(pred_walk(blocks@, header, walk.push(preds@[j as int])));
                        }
                    }
                }
                j = j + 1;
            }
            proof {
                assert forall|y: usize| #[trigger] s1.contains(y) implies stack@.contains(y) by {
                    let k = choose|k: int| 0 <= k < s1.len() && s1[k] == y;
                    assert(stack@[k] == y);
                }
                assert forall|j2: int| 0 <= j2 < preds@.len() implies stack@.contains(#[trigger] preds@[j2]) by {
                    assert(stack@[s1.len() + j2] == preds@[j2]);
                }
                assert(in_natural_loop(blocks@, header, tail, node));
                assert forall|x: int| 0 <= x < n && #[trigger] body@[x] implies in_natural_loop(blocks@, header, tail, x as usize) by {
                    if x != node {
                        assert(b0[x]);
                    }
                }
                assert forall|x: int, j2: int|
                    0 <= x < n && body@[x] && x != header && 0 <= j2 < blocks@[x].predecessors@.len() implies #[trigger] body@[blocks@[x].predecessors@[j2] as int]
                        || stack@.contains(blocks@[x].predecessors@[j2]) by {
                    let q = blocks@[x].predecessors@[j2];
                    assert(blocks@[x].links_below(n as nat));
                    assert(q < n);
                    assert(body@ == b0.update(node as int, true));
                    if x == node {
                        assert(stack@.contains(preds@[j2]));
                    } else {
                        assert(b0[x]);
                        assert(b0[q as int] || st0.contains(q));
                        if q == node {
                            assert(body@[q as int]);
                        } else if b0[q as int] {
                            assert(body@[q as int]);
                        } else {
                            assert(st0.contains(q));
                            assert(stack@.contains(q) || q == node);
                            assert(s1.contains(q));
                            assert(stack@.contains(q));
                        }
                    }
                }
            }
        } else {
            proof {
                assert forall|x: int, j2: int|
                    0 <= x < n && body@[x] && x != header && 0 <= j2 < blocks@[x].predecessors@.len() implies #[trigger] body@[blocks@[x].predecessors@[j2] as int]
                        || stack@.contains(blocks@[x].predecessors@[j2]) by {
                    let q = blocks@[x].predecessors@[j2];
                    if !body@[q as int] {
                        assert(st0.contains(q));
                    }
                }
                assert forall|k: int| 0 <= k < stack@.len() implies walk_reaches(blocks@, header, tail, #[trigger] stack@[k]) by {
                    assert(stack@[k] == st0[k]);
                }
                if !body@[tail as int] {
                    assert(st0.contains(tail));
                }
            }
        }
    }
    proof {
        assert(body@[tail as int]);
        assert forall|x: int| 0 <= x < blocks@.len() implies #[trigger] body@[x] == in_natural_loop(blocks@, header, tail, x as usize) by {
            if in_natural_loop(blocks@, header, tail, x as usize) && x != header {
                let p = choose|p: Seq<usize>| #[trigger] pred_walk(blocks@, header, p) && p[0] == tail && p.last() == x as usize;
                assert forall|y: int, j2: int|
                    0 <= y < blocks@.len() && body@[y] && y != header && 0 <= j2 < blocks@[y].predecessors@.len()
                        implies #[trigger] blocks@[y].predecessors@[j2] < blocks@.len() && body@[blocks@[y].predecessors@[j2] as int] by {
                    assert(blocks@[y].links_below(n as nat));
                    assert(body@[blocks@[y].predecessors@[j2] as int] || stack@.contains(blocks@[y].predecessors@[j2]));
                }
                lemma_walk_closed(blocks@, header, body@, p);
            }
        }
    }
    body
}

/// `a` dominates `b` in the table of immediate dominators: `a` is `b`, or one of
/// the first dominators above `b`, as many as the table has entries.
pub open spec fn dominated(idom: Seq<Option<usize>>, a: usize, b: usize) -> bool {
    a == b || exists|k: nat| 1 <= k <= idom.len() && #[trigger] ancestor(idom, b, k) == Some(a)
}

/// An edge from `a` to `t` that does not go back to a dominator of `a`.
pub open spec fn forward_edge(blocks: Seq<BasicBlock>, idom: Seq<Option<usize>>, a: usize, t: usize) -> bool {
    edge(blocks, a, t) && !dominated(idom, t, a)
}

/// `p` is a path along edges that do not go back to a dominator.
pub open spec fn forward_path(blocks: Seq<BasicBlock>, idom: Seq<Option<usize>>, p: Seq<usize>) -> bool {
    &&& p.len() >= 1
    &&& forall|i: int| 0 <= i < p.len() - 1 ==> #[trigger] forward_edge(blocks, idom, p[i], p[i + 1])
}

/// `to` is reached from `from` along edges that do not go back to a dominator.
pub open spec fn forward_reach(blocks: Seq<BasicBlock>, idom: Seq<Option<usize>>, from: usize, to: usize) -> bool {
    exists|p: Seq<usize>| #[trigger] forward_path(blocks, idom, p) && p[0] == from && p.last() == to
}

proof fn lemma_forward_refl(blocks: Seq<BasicBlock>, idom: Seq<Option<usize>>, a: usize)
    ensures
        forward_reach(blocks, idom, a, a),
{
    let p = seq![a];
    assert(forward_path(blocks, idom, p));
}

proof fn lemma_forward_extend(blocks: Seq<BasicBlock>, idom: Seq<Option<usize>>, from: usize, x: usize, t: usize)
    requires
        forward_reach(blocks, idom, from, x),
        forward_edge(blocks, idom, x, t),
    ensures
        forward_reach(blocks, idom, from, t),
{
    let p = choose|p: Seq<usize>| #[trigger] forward_path(blocks, idom, p) && p[0] == from && p.last() == x;
    let q = p.push(t);
    assert forall|i: int| 0 <= i < q.len() - 1 implies #[trigger] forward_edge(blocks, idom, q[i], q[i + 1]) by {
        if i < p.len() - 1 {
            assert(q[i] == p[i] && q[i + 1] == p[i + 1]);
        } else {
            assert(q[i] == x);
        }
    }
    assert(forward_path(blocks, idom, q));
}

/// A set of blocks closed under forward edges holds every block of a forward path
/// from one of its blocks.
proof fn lemma_forward_closed(blocks: Seq<BasicBlock>, idom: Seq<Option<usize>>, s: Seq<bool>, p: Seq<usize>, k: int)
    requires
        forward_path(blocks, idom, p),
        s.len() == blocks.len(),
        p[0] < s.len(),
        s[p[0] as int],
        links_ok(blocks),
        forall|x: usize, t: usize| x < s.len() && s[x as int] && #[trigger] forward_edge(blocks, idom, x, t) ==> s[t as int],
        0 <= k < p.len(),
    ensures
        p[k] < s.len(),
        s[p[k] as int],
    decreases k,
{
    if k > 0 {
        lemma_forward_closed(blocks, idom, s, p, k - 1);
        assert(forward_edge(blocks, idom, p[k - 1], p[k - 1 + 1]));
        let a = p[k - 1];
        assert(blocks[a as int].links_below(blocks.len()));
        let j = choose|j: int| 0 <= j < succ_targets(blocks[a as int].successors).len() && succ_targets(blocks[a as int].successors)[j] == p[k];
        assert(succ_targets(blocks[a as int].successors)[j] < blocks.len());
    }
}

/// The back edges from block `b` to the targets `ts`: those to a block that
/// dominates `b`, in order.
pub open spec fn edges_to(idom: Seq<Option<usize>>, b: usize, ts: Seq<usize>) -> Seq<(usize, usize)>
    decreases ts.len(),
{
    if ts.len() == 0 {
        Seq::empty()
    } else {
        edges_to(idom, b, ts.drop_last()) + if dominated(idom, ts.last(), b) {
            seq![(b, ts.last())]
        } else {
            Seq::empty()
        }
    }
}

/// The back edges `(tail, header)` from the first `b` blocks, in the order of the
/// blocks and of each block's successors.
pub open spec fn back_edges(blocks: Seq<BasicBlock>, idom: Seq<Option<usize>>, b: int) -> Seq<(usize, usize)>
    decreases b,
{
    if b <= 0 {
        Seq::empty()
    } else {
        back_edges(blocks, idom, b - 1) + edges_to(idom, (b - 1) as usize, succ_targets(blocks[b - 1].successors))
    }
}

/// The first of `ts` outside the body.
pub open spec fn first_outside(ts: Seq<usize>, body: Seq<bool>) -> Option<usize>
    decreases ts.len(),
{
    if ts.len() == 0 {
        None
    } else if !body[ts[0] as int] {
        Some(ts[0])
    } else {
        first_outside(ts.drop_first(), body)
    }
}

/// The first successor outside the body of a block of the body, the blocks from
/// `x` on taken in order.
pub open spec fn first_exit_from(blocks: Seq<BasicBlock>, body: Seq<bool>, x: int) -> Option<usize>
    decreases blocks.len() - x,
{
    if x < 0 || x >= blocks.len() {
        None
    } else if body[x] && first_outside(succ_targets(blocks[x].successors), body) is Some {
        first_outside(succ_targets(blocks[x].successors), body)
    } else {
        first_exit_from(blocks, body, x + 1)
    }
}

/// The exit of a loop: for a header that ends in a conditional, its first
/// successor outside the body (or the header); else the first successor outside
/// the body of a block of the body, in the order of the blocks (or the header).
pub open spec fn loop_exit(blocks: Seq<BasicBlock>, header: usize, body: Seq<bool>) -> usize {
    match blocks[header as int].successors {
        Some(Successor::Conditional { to_then, to_else, .. }) => conditional_exit(to_then, to_else, body, header),
        _ => match first_exit_from(blocks, body, 0) {
            Some(t) => t,
            None => header,
        },
    }
}

/// The loop of the back edge `e` as `find_loops` builds it.
pub open spec fn loop_of_edge(blocks: Seq<BasicBlock>, e: (usize, usize), l: LoopInfo) -> bool {
    &&& l.header == e.1
    &&& l.body@.len() == blocks.len()
    &&& forall|x: int| 0 <= x < blocks.len() ==> #[trigger] l.body@[x] == in_natural_loop(blocks, e.1, e.0, x as usize)
    &&& l.exit == loop_exit(blocks, e.1, l.body@)
}

proof fn lemma_first_outside(ts: Seq<usize>, body: Seq<bool>)
    ensures
        first_outside(ts, body) matches Some(t) ==> ts.contains(t) && !body[t as int],
    decreases ts.len(),
{
    if ts.len() > 0 && body[ts[0] as int] {
        lemma_first_outside(ts.drop_first(), body);
        if let Some(t) = first_outside(ts.drop_first(), body) {
            let k = choose|k: int| 0 <= k < ts.drop_first().len() && ts.drop_first()[k] == t;
            assert(ts[k + 1] == t);
        }
    } else if ts.len() > 0 {
        assert(ts[0] == ts[0]);
    }
}

proof fn lemma_first_exit_from(blocks: Seq<BasicBlock>, body: Seq<bool>, x: int)
    requires
        x >= 0,
        body.len() == blocks.len(),
    ensures
        first_exit_from(blocks, body, x) matches Some(t) ==> exists|b: int|
            0 <= b < blocks.len() && body[b] && #[trigger] succ_targets(blocks[b].successors).contains(t) && !body[t as int],
    decreases blocks.len() - x,
{
    if x < blocks.len() {
        lemma_first_outside(succ_targets(blocks[x].successors), body);
        if !(body[x] && first_outside(succ_targets(blocks[x].successors), body) is Some) {
            lemma_first_exit_from(blocks, body, x + 1);
        }
    }
}

/// The first of `ts` outside the body.
fn first_outside_of(ts: &Vec<usize>, body: &Vec<bool>) -> (r: Option<usize>)
    requires
        forall|j: int| 0 <= j < ts@.len() ==> #[trigger] ts@[j] < body@.len(),
    ensures
        r == first_outside(ts@, body@),
{
    let mut j: usize = 0;
    proof {
        assert(ts@.subrange(0, ts@.len() as int) =~= ts@);
    }
    while j < ts.len()
        invariant
            forall|k: int| 0 <= k < ts@.len() ==> #[trigger] ts@[k] < body@.len(),
            j <= ts@.len(),
            first_outside(ts@, body@) == first_outside(ts@.subrange(j as int, ts@.len() as int), body@),
        decreases ts@.len() - j,
    {
        let t = ts[j];
        if !body[t] {
            return Some(t);
        }
        proof {
            let r = ts@.subrange(j as int, ts@.len() as int);
            assert(r[0] == t);
            assert(r.drop_first() =~= ts@.subrange(j + 1, ts@.len() as int));
        }
        j = j + 1;
    }
    None
}

/// Find the natural loops: one for each edge to a block that dominates its source.
pub fn find_loops(blocks: &Vec<BasicBlock>, idom: &Vec<Option<usize>>) -> (loops: Vec<LoopInfo>)
    requires
        links_ok(blocks@),
    ensures
        forall|i: int| 0 <= i < loops@.len() ==> loop_ok(blocks@, #[trigger] loops@[i]),
        loops@.len() == back_edges(blocks@, idom@, blocks@.len() as int).len(),
        forall|i: int|
            0 <= i < loops@.len() ==> loop_of_edge(blocks@, back_edges(blocks@, idom@, blocks@.len() as int)[i], #[trigger] loops@[i]),
{
    let n = blocks.len();
    let mut back: Vec<(usize, usize)> = Vec::new();
    let mut b: usize = 0;
    while b < n
        invariant
            n == blocks@.len(),
            links_ok(blocks@),
            b <= n,
            back@ == back_edges(blocks@, idom@, b as int),
            forall|k: int| 0 <= k < back@.len() ==> (#[trigger] back@[k]).0 < n && back@[k].1 < n,
        decreases n - b,
    {
        let targets = targets_of(&blocks[b].successors);
        proof {
            assert(blocks@[b as int].links_below(n as nat));
            assert(targets@.take(0) =~= Seq::<usize>::empty());
            assert(back@ =~= back_edges(blocks@, idom@, b as int) + edges_to(idom@, b, targets@.take(0)));
        }
        let mut j: usize = 0;
        while j < targets.len()
            invariant
                n == blocks@.len(),
                b < n,
                targets@ == succ_targets(blocks@[b as int].successors),
                blocks@[b as int].links_below(n as nat),
                j <= targets@.len(),
                back@ == back_edges(blocks@, idom@, b as int) + edges_to(idom@, b, targets@.take(j as int)),
                forall|k: int| 0 <= k < back@.len() ==> (#[trigger] back@[k]).0 < n && back@[k].1 < n,
            decreases targets@.len() - j,
        {
            let t = targets[j];
            proof {
                assert(succ_targets(blocks@[b as int].successors)[j as int] < n);
                let tk = targets@.take(j + 1);
                assert(tk.drop_last() =~= targets@.take(j as int));
                assert(tk.last() == t);
            }
            let ghost b0 = back@;
            if dominates(t, b, idom) {
                back.push((b, t));
                proof {
                    assert(back@ =~= back_edges(blocks@, idom@, b as int) + edges_to(idom@, b, targets@.take(j + 1)));
                }
            } else {
                proof {
                    assert(back@ =~= back_edges(blocks@, idom@, b as int) + edges_to(idom@, b, targets@.take(j + 1)));
                }
            }
            j = j + 1;
        }
        proof {
            assert(targets@.take(targets@.len() as int) =~= targets@);
            assert(back_edges(blocks@, idom@, b + 1) == back_edges(blocks@, idom@, b as int) + edges_to(
                idom@,
                b,
                succ_targets(blocks@[b as int].successors),
            ));
        }
        b = b + 1;
    }
    let mut loops: Vec<LoopInfo> = Vec::new();
    let mut e: usize = 0;
    while e < back.len()
        invariant
            n == blocks@.len(),
            links_ok(blocks@),
            e <= back@.len(),
            back@ == back_edges(blocks@, idom@, n as int),
            forall|k: int| 0 <= k < back@.len() ==> (#[trigger] back@[k]).0 < n && back@[k].1 < n,
            loops@.len() == e,
            forall|i: int| 0 <= i < loops@.len() ==> loop_ok(blocks@, #[trigger] loops@[i]),
            forall|i: int| 0 <= i < loops@.len() ==> loop_of_edge(blocks@, back@[i], #[trigger] loops@[i]),
        decreases back@.len() - e,
    {
        let (tail, header) = back[e];
        proof {
            assert(back@[e as int].0 < n && back@[e as int].1 < n);
        }
        let body = loop_body(blocks, header, tail);
        // The loop exit is the block control transfers to when the loop terminates
        // normally: the loop header's successor that lies outside the body (circom loops
        // test their condition at the header).
        let mut exit = header;
        proof {
            assert(blocks@[header as int].links_below(n as nat));
        }
        match &blocks[header].successors {
            Some(Successor::Conditional { to_then, to_else, .. }) => {
                proof {
                    assert(succ_targets(blocks@[header as int].successors)[0] == *to_then);
                    assert(succ_targets(blocks@[header as int].successors)[1] == *to_else);
                }
                if !body[*to_then] {
                    exit = *to_then;
                } else if !body[*to_else] {
                    exit = *to_else;
                }
            },
            _ => {
                // Fallback: header is not a conditional. Pick the out-of-body successor
                // deterministically (smallest block id over body blocks visited in order).
                let mut x: usize = 0;
                let mut found: Option<usize> = None;
                while x < n && found.is_none()
                    invariant
                        n == blocks@.len(),
                        links_ok(blocks@),
                        body@.len() == n,
                        x <= n,
                        found is None ==> first_exit_from(blocks@, body@, 0) == first_exit_from(blocks@, body@, x as int),
                        found is Some ==> found == first_exit_from(blocks@, body@, 0),
                    decreases n - x + (if found is None { 1int } else { 0int }),
                {
                    if body[x] {
                        let targets = targets_of(&blocks[x].successors);
                        proof {
                            assert(blocks@[x as int].links_below(n as nat));
                        }
                        found = first_outside_of(&targets, &body);
                    }
                    if found.is_none() {
                        x = x + 1;
                    }
                }
                if let Some(t) = found {
                    exit = t;
                }
                proof {
                    lemma_first_exit_from(blocks@, body@, 0);
                    if let Some(t) = first_exit_from(blocks@, body@, 0) {
                        let bb = choose|bb: int| 0 <= bb < blocks@.len() && body@[bb] && #[trigger] succ_targets(blocks@[bb].successors).contains(t)
                            && !body@[t as int];
                        assert(blocks@[bb].links_below(n as nat));
                        let k = choose|k: int| 0 <= k < succ_targets(blocks@[bb].successors).len() && succ_targets(blocks@[bb].successors)[k] == t;
                        assert(t < n);
                    }
                }
            },
        }
        let ghost l = LoopInfo { header, exit, body };
        proof {
            assert(loop_of_edge(blocks@, back@[e as int], l));
            assert(loop_ok(blocks@, l));
        }
        loops.push(LoopInfo { header, exit, body });
        proof {
            assert(loops@[loops@.len() - 1] == l);
        }
        e = e + 1;
    }
    loops
}

// ---------------------------------------------------------------------------
// Post-dominance
// ---------------------------------------------------------------------------

/// The successors of a block in the graph with a virtual exit `n`: its own, or the
/// exit where it has none.
pub open spec fn exit_targets(b: BasicBlock, n: usize) -> Seq<usize> {
    if succ_targets(b.successors).len() == 0 {
        seq![n]
    } else {
        succ_targets(b.successors)
    }
}

/// Block `b` reaches a block without successors.
pub open spec fn reaches_exit(blocks: Seq<BasicBlock>, b: usize) -> bool {
    exists|x: usize| #[trigger] reachable(blocks, b, x) && x < blocks.len() && blocks[x as int].successors is None
}

/// `rsucc` is the reverse of the graph with a virtual exit: the list of node `x`
/// holds the blocks among whose successors `x` is.
pub open spec fn reverse_lists(blocks: Seq<BasicBlock>, rsucc: Seq<Vec<usize>>) -> bool {
    &&& rsucc.len() == blocks.len() + 1
    &&& forall|x: int, y: usize|
        0 <= x < rsucc.len() ==> (#[trigger] rsucc[x]@.contains(y) <==> (y < blocks.len() && exit_targets(
            blocks[y as int],
            blocks.len() as usize,
        ).contains(x as usize)))
}

/// The blocks that reach a block without successors are those that the virtual
/// exit reaches in the reverse graph.
proof fn lemma_exit_reach(blocks: Seq<BasicBlock>, rsucc: Seq<Vec<usize>>, b: usize)
    requires
        reverse_lists(blocks, rsucc),
        links_ok(blocks),
        b < blocks.len(),
        blocks.len() < usize::MAX,
    ensures
        reaches_exit(blocks, b) <==> adj_reachable(rsucc, blocks.len() as usize, b),
{
    let n = blocks.len() as usize;
    if reaches_exit(blocks, b) {
        let x = choose|x: usize| #[trigger] reachable(blocks, b, x) && x < blocks.len() && blocks[x as int].successors is None;
        let p = choose|p: Seq<usize>| #[trigger] is_path(blocks, p) && p[0] == b && p.last() == x;
        let q = seq![n] + p.reverse();
        assert(q.len() == p.len() + 1);
        assert forall|i: int| 0 <= i < q.len() - 1 implies #[trigger] adj_edge(rsucc, q[i], q[i + 1]) by {
            if i == 0 {
                assert(q[1] == p[p.len() - 1]);
                assert(exit_targets(blocks[x as int], n) == seq![n]);
                assert(exit_targets(blocks[x as int], n)[0] == n);
                assert(rsucc[n as int]@.contains(x));
            } else {
                let m = p.len() - i;
                assert(q[i] == p[m]);
                assert(q[i + 1] == p[m - 1]);
                assert(edge(blocks, p[m - 1], p[m - 1 + 1]));
                let a = p[m - 1];
                assert(blocks[a as int].links_below(blocks.len()));
                let jt = choose|jt: int| 0 <= jt < succ_targets(blocks[a as int].successors).len() && succ_targets(blocks[a as int].successors)[jt] == p[m];
                assert(succ_targets(blocks[a as int].successors)[jt] < blocks.len());
                assert(exit_targets(blocks[a as int], n) == succ_targets(blocks[a as int].successors));
                assert(rsucc[p[m] as int]@.contains(a));
            }
        }
        assert(q.last() == p[0]);
        assert(adj_path(rsucc, q));
    }
    if adj_reachable(rsucc, n, b) {
        let q = choose|q: Seq<usize>| #[trigger] adj_path(rsucc, q) && q[0] == n && q.last() == b;
        assert(q.len() >= 2) by {
            if q.len() == 1 {
                assert(q[0] == q.last());
            }
        }
        // every node after the exit is a block
        assert forall|i: int| 1 <= i < q.len() implies #[trigger] q[i] < n by {
            assert(adj_edge(rsucc, q[i - 1], q[i - 1 + 1]));
            assert(rsucc[q[i - 1] as int]@.contains(q[i]));
        }
        let x = q[1];
        assert(adj_edge(rsucc, q[0], q[0int + 1]));
        assert(rsucc[n as int]@.contains(x));
        assert(exit_targets(blocks[x as int], n).contains(n));
        assert(blocks[x as int].successors is None) by {
            if succ_targets(blocks[x as int].successors).len() > 0 {
                assert(blocks[x as int].links_below(blocks.len()));
                let jt = choose|jt: int| 0 <= jt < succ_targets(blocks[x as int].successors).len() && succ_targets(blocks[x as int].successors)[jt] == n;
                assert(succ_targets(blocks[x as int].successors)[jt] < blocks.len());
            }
        }
        let r = q.subrange(1, q.len() as int).reverse();
        assert(r.len() == q.len() - 1);
        assert forall|i: int| 0 <= i < r.len() - 1 implies #[trigger] edge(blocks, r[i], r[i + 1]) by {
            let m = q.len() - 1 - i;
            assert(r[i] == q[m]);
            assert(r[i + 1] == q[m - 1]);
            assert(adj_edge(rsucc, q[m - 1], q[m - 1 + 1]));
            assert(rsucc[q[m - 1] as int]@.contains(q[m]));
            assert(q[m - 1] < n);
            assert(exit_targets(blocks[q[m] as int], n).contains(q[m - 1]));
            if succ_targets(blocks[q[m] as int].successors).len() == 0 {
                assert(exit_targets(blocks[q[m] as int], n) == seq![n]);
                let jt = choose|jt: int| 0 <= jt < exit_targets(blocks[q[m] as int], n).len() && exit_targets(blocks[q[m] as int], n)[jt] == q[m - 1];
                assert(exit_targets(blocks[q[m] as int], n)[jt] == n);
            }
        }
        assert(is_path(blocks, r));
        assert(r[0] == q.last());
        assert(r.last() == q[1]);
        assert(reachable(blocks, b, x));
    }
}

/// The successors of each block in the graph with a virtual exit `n`: a block
/// without a successor flows to the exit, and the exit has none.
fn exit_successor_lists(blocks: &Vec<BasicBlock>) -> (fsucc: Vec<Vec<usize>>)
    requires
        links_ok(blocks@),
        blocks@.len() < usize::MAX,
    ensures
        fsucc@.len() == blocks@.len() + 1,
        forall|b: int, j: int| 0 <= b < fsucc@.len() && 0 <= j < fsucc@[b]@.len() ==> #[trigger] fsucc@[b]@[j] <= blocks@.len(),
        forall|b: int| 0 <= b < blocks@.len() ==> (#[trigger] fsucc@[b])@ == exit_targets(blocks@[b], blocks@.len() as usize),
        fsucc@[blocks@.len() as int]@.len() == 0,
{
    let n = blocks.len();
    let mut fsucc: Vec<Vec<usize>> = Vec::new();
    let mut b: usize = 0;
    while b < n
        invariant
            n == blocks@.len(),
            links_ok(blocks@),
            b <= n,
            fsucc@.len() == b,
            forall|x: int, j: int| 0 <= x < b && 0 <= j < fsucc@[x]@.len() ==> #[trigger] fsucc@[x]@[j] <= n,
            forall|x: int| 0 <= x < b ==> (#[trigger] fsucc@[x])@ == exit_targets(blocks@[x], n),
        decreases n - b,
    {
        let mut t = targets_of(&blocks[b].successors);
        proof {
            assert(blocks@[b as int].links_below(n as nat));
        }
        if t.len() == 0 {
            t.push(n);
            proof {
                assert(t@ =~= seq![n]);
            }
        }
        proof {
            assert(t@ == exit_targets(blocks@[b as int], n));
            assert forall|j: int| 0 <= j < t@.len() implies #[trigger] t@[j] <= n by {
                if succ_targets(blocks@[b as int].successors).len() > 0 {
                    assert(t@[j] == succ_targets(blocks@[b as int].successors)[j]);
                }
            }
        }
        let ghost f0 = fsucc@;
        fsucc.push(t);
        proof {
            assert forall|x: int| 0 <= x < b + 1 implies (#[trigger] fsucc@[x])@ == exit_targets(blocks@[x], n) by {
                if x < b {
                    assert(fsucc@[x] == f0[x]);
                }
            }
        }
        b = b + 1;
    }
    let ghost f0 = fsucc@;
    fsucc.push(Vec::new());
    proof {
        assert forall|x: int| 0 <= x < n implies (#[trigger] fsucc@[x])@ == exit_targets(blocks@[x], n) by {
            assert(fsucc@[x] == f0[x]);
        }
    }
    fsucc
}

/// Gives node `b` of the reverse graph the common dominator of its predecessors
/// there (its successors `succs` in the graph) that have one and a number, and says
/// whether its entry changed. An entry that has a dominator keeps one.
fn update_ipostdom(succs: &Vec<usize>, b: usize, idom: &mut Vec<Option<usize>>, rpo_number: &Vec<usize>) -> (changed: bool)
    requires
        b < old(idom)@.len(),
        forall|j: int| 0 <= j < succs@.len() ==> #[trigger] succs@[j] < old(idom)@.len(),
        idom_ok(old(idom)@),
        rpo_number@.len() == old(idom)@.len(),
    ensures
        final(idom)@.len() == old(idom)@.len(),
        idom_ok(final(idom)@),
        forall|x: int| 0 <= x < old(idom)@.len() && x != b ==> #[trigger] final(idom)@[x] == old(idom)@[x],
        old(idom)@[b as int] is Some ==> final(idom)@[b as int] is Some,
        forall|jj: int|
            0 <= jj < succs@.len() && (#[trigger] old(idom)@[succs@[jj] as int]) is Some && rpo_number@[succs@[jj] as int] != usize::MAX
                ==> final(idom)@[b as int] is Some,
        succs@.len() == 1 && old(idom)@[succs@[0] as int] is Some && rpo_number@[succs@[0] as int] != usize::MAX
            ==> final(idom)@[b as int] == Some(succs@[0]),
        changed == (final(idom)@ != old(idom)@),
{
    let total = idom.len();
    let mut new_idom: Option<usize> = None;
    let mut j: usize = 0;
    while j < succs.len()
        invariant
            total == idom@.len(),
            b < total,
            forall|jj: int| 0 <= jj < succs@.len() ==> #[trigger] succs@[jj] < total,
            idom@ == old(idom)@,
            rpo_number@.len() == total,
            idom_ok(idom@),
            j <= succs@.len(),
            new_idom matches Some(d) ==> d < total,
            forall|jj: int|
                0 <= jj < j && (#[trigger] idom@[succs@[jj] as int]) is Some && rpo_number@[succs@[jj] as int] != usize::MAX
                    ==> new_idom is Some,
            j >= 1 && succs@.len() == 1 && idom@[succs@[0] as int] is Some && rpo_number@[succs@[0] as int] != usize::MAX
                ==> new_idom == Some(succs@[0]),
            j == 0 ==> new_idom is None,
        decreases succs@.len() - j,
    {
        let p = succs[j];
        let ghost before = new_idom;
        if rpo_number[p] != usize::MAX && idom[p].is_some() {
            new_idom = Some(match new_idom {
                None => p,
                Some(cur) => intersect(cur, p, &idom, &rpo_number),
            });
        }
        proof {
            if succs@.len() == 1 && idom@[succs@[0] as int] is Some && rpo_number@[succs@[0] as int] != usize::MAX {
                assert(j == 0);
                assert(p == succs@[0]);
                assert(before is None);
                assert(new_idom == Some(p));
            }
        }
        j = j + 1;
    }
    let differs = match (new_idom, idom[b]) {
        (Some(x), Some(y)) => x != y,
        (Some(_), None) => true,
        _ => false,
    };
    if differs {
        idom.set(b, new_idom);
        proof {
            assert(idom@[b as int] != old(idom)@[b as int]);
        }
    }
    differs
}

/// Immediate post-dominators, computed as dominators on the reverse CFG with a single
/// virtual exit node `n` (every sink block flows to it). `ipostdom[b]` is the immediate
/// post-dominator of block `b`; it may equal `n` (the virtual exit), meaning "no real merge
/// point — every path out of `b` leaves the function". Used to find the join of a conditional
/// (its immediate post-dominator), which is exact, unlike a reachability heuristic.
/// A block that reaches no block without successors gets `n`; one that does, and has
/// a single successor in the graph with the exit, gets that successor.
#[verifier::rlimit(60)]
#[verifier::spinoff_prover]
pub fn compute_ipostdom(blocks: &Vec<BasicBlock>) -> (ipostdom: Vec<usize>)
    requires
        links_ok(blocks@),
        blocks@.len() < usize::MAX,
    ensures
        ipostdom@.len() == blocks@.len(),
        forall|b: int| 0 <= b < ipostdom@.len() ==> #[trigger] ipostdom@[b] <= blocks@.len(),
        forall|b: int| 0 <= b < blocks@.len() && !reaches_exit(blocks@, b as usize) ==> #[trigger] ipostdom@[b] == blocks@.len(),
        forall|b: int|
            0 <= b < blocks@.len() && reaches_exit(blocks@, b as usize) && exit_targets(blocks@[b], blocks@.len() as usize).len() == 1
                ==> #[trigger] ipostdom@[b] == exit_targets(blocks@[b], blocks@.len() as usize)[0],
{
    let n = blocks.len();
    let exit = n;
    let total = n + 1;
    let fsucc = exit_successor_lists(blocks);
    // Reverse-graph successors of x = forward predecessors of x.
    let mut rsucc: Vec<Vec<usize>> = Vec::new();
    let mut x: usize = 0;
    while x < total
        invariant
            total == n + 1,
            x <= total,
            rsucc@.len() == x,
            forall|a: int| 0 <= a < x ==> (#[trigger] rsucc@[a])@.len() == 0,
        decreases total - x,
    {
        rsucc.push(Vec::new());
        x = x + 1;
    }
    let mut b: usize = 0;
    while b < n
        invariant
            n == blocks@.len(),
            total == n + 1,
            fsucc@.len() == total,
            forall|y: int, j: int| 0 <= y < fsucc@.len() && 0 <= j < fsucc@[y]@.len() ==> #[trigger] fsucc@[y]@[j] <= n,
            b <= n,
            rsucc@.len() == total,
            forall|a: int, j: int| 0 <= a < rsucc@.len() && 0 <= j < rsucc@[a]@.len() ==> #[trigger] rsucc@[a]@[j] < total,
            forall|a: int, y: usize| 0 <= a < total ==> (#[trigger] rsucc@[a]@.contains(y) <==> (y < b && fsucc@[y as int]@.contains(a as usize))),
        decreases n - b,
    {
        let mut j: usize = 0;
        proof {
            assert(fsucc@[b as int]@.take(0) =~= Seq::<usize>::empty());
        }
        while j < fsucc[b].len()
            invariant
                n == blocks@.len(),
                total == n + 1,
                fsucc@.len() == total,
                forall|y: int, jj: int| 0 <= y < fsucc@.len() && 0 <= jj < fsucc@[y]@.len() ==> #[trigger] fsucc@[y]@[jj] <= n,
                b < n,
                j <= fsucc@[b as int]@.len(),
                rsucc@.len() == total,
                forall|a: int, jj: int| 0 <= a < rsucc@.len() && 0 <= jj < rsucc@[a]@.len() ==> #[trigger] rsucc@[a]@[jj] < total,
                forall|a: int, y: usize|
                    0 <= a < total ==> (#[trigger] rsucc@[a]@.contains(y) <==> ((y < b && fsucc@[y as int]@.contains(a as usize)) || (y
                        == b && fsucc@[b as int]@.take(j as int).contains(a as usize)))),
            decreases fsucc@[b as int]@.len() - j,
        {
            let s = fsucc[b][j];
            let ghost r0 = rsucc@;
            let mut list = rsucc.remove(s);
            let ghost l0 = list@;
            list.push(b);
            rsucc.insert(s, list);
            proof {
                assert(rsucc@ =~= r0.update(s as int, list));
                assert forall|a: int, jj: int| 0 <= a < rsucc@.len() && 0 <= jj < rsucc@[a]@.len() implies #[trigger] rsucc@[a]@[jj] < total by {
                    if a == s {
                        if jj < l0.len() {
                            assert(r0[a]@[jj] == rsucc@[a]@[jj]);
                        }
                    } else {
                        assert(rsucc@[a] == r0[a]);
                    }
                }
                let tk = fsucc@[b as int]@.take(j + 1);
                assert(tk =~= fsucc@[b as int]@.take(j as int).push(s));
                assert forall|a: int, y: usize|
                    0 <= a < total implies (#[trigger] rsucc@[a]@.contains(y) <==> ((y < b && fsucc@[y as int]@.contains(a as usize)) || (y
                        == b && tk.contains(a as usize)))) by {
                    if a == s {
                        assert(l0 == r0[a]@);
                        assert(r0[a]@.contains(y) <==> ((y < b && fsucc@[y as int]@.contains(a as usize)) || (y == b
                            && fsucc@[b as int]@.take(j as int).contains(a as usize))));
                        assert(tk[j as int] == s);
                        assert(tk.contains(s));
                        assert(list@ == l0.push(b));
                        assert(list@[l0.len() as int] == b);
                        assert(list@.contains(b));
                        if l0.contains(y) {
                            let k = choose|k: int| 0 <= k < l0.len() && l0[k] == y;
                            assert(list@[k] == y);
                        }
                        if list@.contains(y) && y != b {
                            let k = choose|k: int| 0 <= k < list@.len() && list@[k] == y;
                            assert(k < l0.len());
                            assert(l0[k] == y);
                        }
                        assert(tk[j as int] == s);
                    } else {
                        assert(rsucc@[a] == r0[a]);
                        if tk.contains(a as usize) {
                            let k = choose|k: int| 0 <= k < tk.len() && tk[k] == a as usize;
                            if k < j {
                                assert(fsucc@[b as int]@.take(j as int)[k] == a as usize);
                            }
                        }
                        if fsucc@[b as int]@.take(j as int).contains(a as usize) {
                            let k = choose|k: int| 0 <= k < j && fsucc@[b as int]@.take(j as int)[k] == a as usize;
                            assert(tk[k] == a as usize);
                        }
                    }
                }
            }
            j = j + 1;
        }
        proof {
            assert(fsucc@[b as int]@.take(fsucc@[b as int]@.len() as int) =~= fsucc@[b as int]@);
        }
        b = b + 1;
    }
    proof {
        assert(crate::graph::adj_ok(rsucc@));
        assert forall|a: int, y: usize|
            0 <= a < rsucc@.len() implies (#[trigger] rsucc@[a]@.contains(y) <==> (y < blocks@.len() && exit_targets(
                blocks@[y as int],
                blocks@.len() as usize,
            ).contains(a as usize))) by {
            if y < n {
                assert(fsucc@[y as int]@ == exit_targets(blocks@[y as int], n));
            }
        }
        assert(reverse_lists(blocks@, rsucc@));
    }
    // Reverse postorder of the reverse graph from the virtual exit.
    let post = postorder(&rsucc, exit);
    let mut rpo: Vec<usize> = Vec::new();
    let mut i: usize = post.len();
    while i > 0
        invariant
            i <= post@.len(),
            rpo@.len() == post@.len() - i,
            forall|k: int| 0 <= k < rpo@.len() ==> #[trigger] rpo@[k] == post@[post@.len() - 1 - k],
        decreases i,
    {
        i = i - 1;
        rpo.push(post[i]);
    }
    proof {
        assert forall|k: int| 0 <= k < rpo@.len() implies #[trigger] rpo@[k] < total by {
            let x = post@[post@.len() - 1 - k];
            assert(post@.contains(x));
            crate::graph::lemma_adj_reachable_below(rsucc@, exit, x);
        }
        assert forall|x: usize| #[trigger] rpo@.contains(x) <==> adj_reachable(rsucc@, exit, x) by {
            if rpo@.contains(x) {
                let k = choose|k: int| 0 <= k < rpo@.len() && rpo@[k] == x;
                assert(post@[post@.len() - 1 - k] == x);
                assert(post@.contains(x));
            }
            if adj_reachable(rsucc@, exit, x) {
                assert(post@.contains(x));
                let k = choose|k: int| 0 <= k < post@.len() && post@[k] == x;
                assert(rpo@[post@.len() - 1 - k] == x);
            }
        }
        assert forall|p: int, q: int| 0 <= p < rpo@.len() && 0 <= q < rpo@.len() && p != q implies rpo@[p] != rpo@[q] by {
            assert(rpo@[p] == post@[post@.len() - 1 - p]);
            assert(rpo@[q] == post@[post@.len() - 1 - q]);
        }
        assert(rpo@[0] == exit);
        assert forall|r: int| 0 <= r < rpo@.len() && rpo@[r] != exit implies exists|q: int|
            0 <= q < r && #[trigger] adj_edge(rsucc@, rpo@[q], rpo@[r]) by {
            let ii = post@.len() - 1 - r;
            assert(post@[ii] == rpo@[r]);
            let jj = choose|jj: int| ii < jj < post@.len() && #[trigger] adj_edge(rsucc@, post@[jj], post@[ii]);
            let q = post@.len() - 1 - jj;
            assert(rpo@[q] == post@[jj]);
        }
    }
    let mut rpo_number: Vec<usize> = Vec::new();
    let mut idom: Vec<Option<usize>> = Vec::new();
    let mut x: usize = 0;
    while x < total
        invariant
            x <= total,
            rpo_number@.len() == x,
            idom@.len() == x,
            forall|k: int| 0 <= k < x ==> (#[trigger] idom@[k]).is_none(),
        decreases total - x,
    {
        rpo_number.push(usize::MAX);
        idom.push(None);
        x = x + 1;
    }
    let mut i: usize = 0;
    while i < rpo.len()
        invariant
            total == n + 1,
            rpo_number@.len() == total,
            i <= rpo@.len(),
            rpo@.len() <= usize::MAX,
            rpo@.no_duplicates(),
            forall|k: int| 0 <= k < rpo@.len() ==> #[trigger] rpo@[k] < total,
            forall|k: int| 0 <= k < i ==> #[trigger] rpo_number@[rpo@[k] as int] == k,
        decreases rpo@.len() - i,
    {
        let ghost n0 = rpo_number@;
        rpo_number.set(rpo[i], i);
        proof {
            assert forall|k: int| 0 <= k < i + 1 implies #[trigger] rpo_number@[rpo@[k] as int] == k by {
                if k < i {
                    assert(rpo@[k] != rpo@[i as int]);
                    assert(rpo_number@[rpo@[k] as int] == n0[rpo@[k] as int]);
                }
            }
        }
        i = i + 1;
    }
    idom.set(exit, Some(exit));
    proof {
        assert forall|y: int| 0 <= y < total && (#[trigger] idom@[y]) is Some implies rpo@.contains(y as usize) by {
            if y != exit {
                assert(idom@[y].is_none());
            }
            assert(rpo@[0] == exit);
        }
    }
    let limit: usize = if total < usize::MAX - 3 { total + 3 } else { usize::MAX };
    let mut rounds: usize = 0;
    let mut changed = true;
    while changed && rounds < limit
        invariant
            n == blocks@.len(),
            total == n + 1,
            exit == n,
            fsucc@.len() == total,
            forall|y: int, jj: int| 0 <= y < fsucc@.len() && 0 <= jj < fsucc@[y]@.len() ==> #[trigger] fsucc@[y]@[jj] <= n,
            forall|y: int| 0 <= y < n ==> (#[trigger] fsucc@[y])@ == exit_targets(blocks@[y], n),
            reverse_lists(blocks@, rsucc@),
            idom@.len() == total,
            rpo_number@.len() == total,
            idom_ok(idom@),
            idom@[exit as int] is Some,
            rpo@.len() > 0,
            rpo@[0] == exit,
            rpo@.no_duplicates(),
            forall|k: int| 0 <= k < rpo@.len() ==> #[trigger] rpo@[k] < total,
            forall|k: int| 0 <= k < rpo@.len() ==> #[trigger] rpo_number@[rpo@[k] as int] == k,
            rpo@.len() <= usize::MAX,
            forall|r: int|
                0 <= r < rpo@.len() && rpo@[r] != exit ==> exists|q: int| 0 <= q < r && #[trigger] adj_edge(rsucc@, rpo@[q], rpo@[r]),
            forall|y: int| 0 <= y < total && (#[trigger] idom@[y]) is Some ==> rpo@.contains(y as usize),
            limit > 0,
            rounds == 0 ==> changed,
            rounds > 0 ==> forall|k: int| 0 <= k < rpo@.len() ==> (#[trigger] idom@[rpo@[k] as int]) is Some,
            rounds > 0 ==> forall|k: int|
                0 <= k < rpo@.len() && rpo@[k] < n && (#[trigger] fsucc@[rpo@[k] as int])@.len() == 1 ==> idom@[rpo@[k] as int]
                    == Some(fsucc@[rpo@[k] as int]@[0]),
            rounds <= limit,
        decreases limit - rounds,
    {
        changed = false;
        rounds = rounds + 1;
        let mut k: usize = 0;
        while k < rpo.len()
            invariant
                n == blocks@.len(),
                total == n + 1,
                exit == n,
                fsucc@.len() == total,
                forall|y: int, jj: int| 0 <= y < fsucc@.len() && 0 <= jj < fsucc@[y]@.len() ==> #[trigger] fsucc@[y]@[jj] <= n,
                forall|y: int| 0 <= y < n ==> (#[trigger] fsucc@[y])@ == exit_targets(blocks@[y], n),
                reverse_lists(blocks@, rsucc@),
                idom@.len() == total,
                rpo_number@.len() == total,
                idom_ok(idom@),
                idom@[exit as int] is Some,
                rpo@.len() > 0,
                rpo@[0] == exit,
                rpo@.no_duplicates(),
                forall|kk: int| 0 <= kk < rpo@.len() ==> #[trigger] rpo@[kk] < total,
                forall|kk: int| 0 <= kk < rpo@.len() ==> #[trigger] rpo_number@[rpo@[kk] as int] == kk,
                rpo@.len() <= usize::MAX,
                forall|r: int|
                    0 <= r < rpo@.len() && rpo@[r] != exit ==> exists|q: int| 0 <= q < r && #[trigger] adj_edge(rsucc@, rpo@[q], rpo@[r]),
                forall|y: int| 0 <= y < total && (#[trigger] idom@[y]) is Some ==> rpo@.contains(y as usize),
                rounds > 1 ==> forall|kk: int| 0 <= kk < rpo@.len() ==> (#[trigger] idom@[rpo@[kk] as int]) is Some,
                forall|kk: int| 0 <= kk < k ==> (#[trigger] idom@[rpo@[kk] as int]) is Some,
                rounds > 1 ==> forall|kk: int|
                    0 <= kk < rpo@.len() && rpo@[kk] < n && (#[trigger] fsucc@[rpo@[kk] as int])@.len() == 1 ==> idom@[rpo@[kk] as int]
                        == Some(fsucc@[rpo@[kk] as int]@[0]),
                forall|kk: int|
                    0 <= kk < k && rpo@[kk] < n && (#[trigger] fsucc@[rpo@[kk] as int])@.len() == 1 ==> idom@[rpo@[kk] as int]
                        == Some(fsucc@[rpo@[kk] as int]@[0]),
                k <= rpo@.len(),
            decreases rpo@.len() - k,
        {
            let b = rpo[k];
            let ghost idom0 = idom@;
            if b != exit {
                proof {
                    assert forall|jj: int| 0 <= jj < fsucc@[b as int]@.len() implies #[trigger] fsucc@[b as int]@[jj] < idom@.len() by {
                        assert(fsucc@[b as int]@[jj] <= n);
                    }
                }
                // Predecessors of b in the reverse graph = forward successors of b.
                if update_ipostdom(&fsucc[b], b, &mut idom, &rpo_number) {
                    changed = true;
                }
                proof {
                    let q = choose|q: int| 0 <= q < k && #[trigger] adj_edge(rsucc@, rpo@[q], rpo@[k as int]);
                    let a = rpo@[q];
                    assert(rsucc@[a as int]@.contains(b));
                    assert(b < n);
                    assert(exit_targets(blocks@[b as int], n).contains(a));
                    assert(fsucc@[b as int]@ == exit_targets(blocks@[b as int], n));
                    let jj = choose|jj: int| 0 <= jj < fsucc@[b as int]@.len() && fsucc@[b as int]@[jj] == a;
                    assert(idom0[rpo@[q] as int] is Some);
                    assert(rpo_number@[rpo@[q] as int] == q);
                    assert(idom0[fsucc@[b as int]@[jj] as int] is Some);
                    assert(idom@[b as int] is Some);
                    if fsucc@[b as int]@.len() == 1 {
                        assert(fsucc@[b as int]@[0] == a);
                        assert(idom@[b as int] == Some(fsucc@[b as int]@[0]));
                    }
                }
            }
            proof {
                assert forall|kk: int| 0 <= kk < rpo@.len() && kk != k implies #[trigger] idom@[rpo@[kk] as int] == idom0[rpo@[kk] as int] by {
                    assert(rpo@[kk] != rpo@[k as int]);
                }
                assert forall|y: int| 0 <= y < total && (#[trigger] idom@[y]) is Some implies rpo@.contains(y as usize) by {
                    if y != b {
                        assert(idom@[y] == idom0[y]);
                    } else {
                        assert(rpo@[k as int] == b);
                    }
                }
                assert forall|kk: int| 0 <= kk < k + 1 implies (#[trigger] idom@[rpo@[kk] as int]) is Some by {
                    if kk < k {
                        assert(idom0[rpo@[kk] as int] is Some);
                    }
                }
                assert forall|kk: int|
                    0 <= kk < k + 1 && rpo@[kk] < n && (#[trigger] fsucc@[rpo@[kk] as int])@.len() == 1 implies idom@[rpo@[kk] as int]
                        == Some(fsucc@[rpo@[kk] as int]@[0]) by {
                    if kk < k {
                        assert(idom0[rpo@[kk] as int] == Some(fsucc@[rpo@[kk] as int]@[0]));
                    }
                }
                if rounds > 1 {
                    assert forall|kk: int| 0 <= kk < rpo@.len() implies (#[trigger] idom@[rpo@[kk] as int]) is Some by {
                        if kk != k {
                            assert(idom0[rpo@[kk] as int] is Some);
                        }
                    }
                    assert forall|kk: int|
                        0 <= kk < rpo@.len() && rpo@[kk] < n && (#[trigger] fsucc@[rpo@[kk] as int])@.len() == 1 implies idom@[rpo@[kk] as int]
                            == Some(fsucc@[rpo@[kk] as int]@[0]) by {
                        if kk != k {
                            assert(idom0[rpo@[kk] as int] == Some(fsucc@[rpo@[kk] as int]@[0]));
                        }
                    }
                }
            }
            k = k + 1;
        }
    }
    let mut result: Vec<usize> = Vec::new();
    let mut b: usize = 0;
    while b < n
        invariant
            total == n + 1,
            exit == n,
            idom@.len() == total,
            idom_ok(idom@),
            b <= n,
            result@.len() == b,
            forall|k: int| 0 <= k < b ==> #[trigger] result@[k] == match idom@[k] {
                Some(d) => d,
                None => n,
            },
        decreases n - b,
    {
        let v = match idom[b] {
            Some(d) => d,
            None => exit,
        };
        let ghost r0 = result@;
        result.push(v);
        proof {
            assert forall|k: int| 0 <= k < b + 1 implies #[trigger] result@[k] == match idom@[k] {
                Some(d) => d,
                None => n,
            } by {
                if k < b {
                    assert(result@[k] == r0[k]);
                }
            }
        }
        b = b + 1;
    }
    proof {
        assert(rounds > 0);
        assert forall|bb: int| 0 <= bb < result@.len() implies #[trigger] result@[bb] <= blocks@.len() by {
            if idom@[bb] is Some {
                assert(idom@[bb].unwrap() < total);
            }
        }
        assert forall|bb: int| 0 <= bb < blocks@.len() && !reaches_exit(blocks@, bb as usize) implies #[trigger] result@[bb] == blocks@.len() by {
            lemma_exit_reach(blocks@, rsucc@, bb as usize);
            if idom@[bb] is Some {
                assert(rpo@.contains(bb as usize));
            }
        }
        assert forall|bb: int|
            0 <= bb < blocks@.len() && reaches_exit(blocks@, bb as usize) && exit_targets(blocks@[bb], blocks@.len() as usize).len() == 1
                implies #[trigger] result@[bb] == exit_targets(blocks@[bb], blocks@.len() as usize)[0] by {
            lemma_exit_reach(blocks@, rsucc@, bb as usize);
            assert(rpo@.contains(bb as usize));
            let k = choose|k: int| 0 <= k < rpo@.len() && rpo@[k] == bb as usize;
            assert(fsucc@[rpo@[k] as int]@ == exit_targets(blocks@[bb], n));
            assert(idom@[rpo@[k] as int] == Some(fsucc@[rpo@[k] as int]@[0]));
        }
    }
    result
}

// ---------------------------------------------------------------------------
// Structural walk: CFG to CVM body
// ---------------------------------------------------------------------------

/// The lines of CVM text of a list of statements.
pub open spec fn statement_lines(s: Seq<SpecStatement>) -> Seq<char>
    decreases s.len(),
{
    if s.len() == 0 {
        Seq::empty()
    } else {
        statement_lines(s.drop_last()) + statement_text(s.last()) + "\n"@
    }
}

/// The line that opens a conditional: its type, `.if`, and its condition.
pub open spec fn cond_line(num_type: NumericType, condition: SpecExpression) -> Seq<char> {
    (match num_type {
        NumericType::Integer => "i64"@,
        NumericType::FiniteField => "ff"@,
    }) + ".if "@ + expression_text(condition) + "\n"@
}

/// The text `s` begins with `t`.
#[verifier::opaque]
pub open spec fn begins(t: Seq<char>, s: Seq<char>) -> bool {
    t.is_prefix_of(s)
}

/// A text begins with its prefixes also after more is appended.
pub proof fn lemma_prefix_append(t: Seq<char>, a: Seq<char>, b: Seq<char>)
    requires
        begins(t, a),
    ensures
        begins(t, a + b),
{
    reveal(begins);
    assert((a + b).subrange(0, t.len() as int) =~= a.subrange(0, t.len() as int));
}

pub proof fn lemma_begins_refl(t: Seq<char>)
    ensures
        begins(t, t),
{
    reveal(begins);
    assert(t.subrange(0, t.len() as int) =~= t);
}

/// The structural walk over a graph, with the natural loops, the dominators and
/// the post-dominators that steer it, and the text written so far.
/// The first loop whose header is `h`, if there is one.
pub open spec fn loop_of_header(loops: Seq<LoopInfo>, h: usize) -> Option<int> {
    if exists|k: int| 0 <= k < loops.len() && (#[trigger] loops[k]).header == h {
        Some(
            choose|k: int|
                0 <= k < loops.len() && loops[k].header == h && forall|k2: int| 0 <= k2 < k ==> (#[trigger] loops[k2]).header != h,
        )
    } else {
        None
    }
}

/// The join that the conditional at `b` continues with: its immediate
/// post-dominator, unless that is the virtual exit or the enclosing loop's header
/// or exit.
pub open spec fn region_join(ipostdom: Seq<usize>, n: nat, b: usize, header: Option<usize>, exit: Option<usize>) -> Option<usize> {
    let j = ipostdom[b as int];
    if j >= n || exit == Some(j) || header == Some(j) {
        None
    } else {
        Some(j)
    }
}

/// The structured text written for block `b` and the blocks that follow it in its
/// region, inside the loop with `header` and `exit`, with the blocks of `visited`
/// already written, nested at most `fuel` levels; and the set of written blocks
/// afterwards.
#[verifier::opaque]
pub open spec fn region(
    blocks: Seq<BasicBlock>,
    loops: Seq<LoopInfo>,
    idom: Seq<Option<usize>>,
    ipostdom: Seq<usize>,
    b: usize,
    header: Option<usize>,
    exit: Option<usize>,
    visited: Set<usize>,
    fuel: nat,
) -> (Seq<char>, Set<usize>)
    decreases fuel,
{
    if visited.contains(b) {
        (Seq::empty(), visited)
    } else if exit == Some(b) {
        ("break"@ + "\n"@, visited)
    } else if fuel == 0 {
        (Seq::empty(), visited)
    } else {
        let f = (fuel - 1) as nat;
        let v1 = visited.insert(b);
        let s = statement_lines(stmts_view(blocks[b as int].statements@));
        match opt_succ(blocks[b as int].successors) {
            None => (s, v1),
            Some(SpecSuccessor::Unconditional { to }) => if header == Some(to) {
                (s + "continue"@ + "\n"@, v1)
            } else if exit == Some(to) {
                (s + "break"@ + "\n"@, v1)
            } else {
                match loop_of_header(loops, to) {
                    Some(li) => {
                        let inner = region(blocks, loops, idom, ipostdom, to, Some(to), Some(loops[li].exit), v1, f);
                        let after = region(blocks, loops, idom, ipostdom, loops[li].exit, header, exit, inner.1, f);
                        (s + "loop"@ + "\n"@ + inner.0 + "end"@ + "\n"@ + after.0, after.1)
                    },
                    None => {
                        let next = region(blocks, loops, idom, ipostdom, to, header, exit, v1, f);
                        (s + next.0, next.1)
                    },
                }
            },
            Some(SpecSuccessor::Conditional { num_type, condition, to_then, to_else }) => {
                let join = region_join(ipostdom, blocks.len(), b, header, exit);
                let v2 = match join {
                    Some(j) => v1.insert(j),
                    None => v1,
                };
                let then_part = region(blocks, loops, idom, ipostdom, to_then, header, exit, v2, f);
                let no_else_exc = join is None && !forward_reach(blocks, idom, to_then, to_else) && exit != Some(to_else);
                let no_else = join == Some(to_else) || no_else_exc;
                let break_after = join is None && exit == Some(to_else);
                let else_part = if !no_else && !break_after {
                    let e = region(blocks, loops, idom, ipostdom, to_else, header, exit, then_part.1, f);
                    ("else"@ + "\n"@ + e.0, e.1)
                } else {
                    (Seq::<char>::empty(), then_part.1)
                };
                let brk = if break_after {
                    "break"@ + "\n"@
                } else {
                    Seq::<char>::empty()
                };
                let rest = match join {
                    Some(j) => region(blocks, loops, idom, ipostdom, j, header, exit, else_part.1.remove(j), f),
                    None => if no_else_exc {
                        region(blocks, loops, idom, ipostdom, to_else, header, exit, else_part.1, f)
                    } else {
                        (Seq::<char>::empty(), else_part.1)
                    },
                };
                (s + cond_line(num_type, condition) + then_part.0 + else_part.0 + "end"@ + "\n"@ + brk + rest.0, rest.1)
            },
        }
    }
}

/// The code that follows a conditional without an `else` is kept: when the
/// conditional at `b` has no join, and its else target is neither the loop exit
/// nor reached by the then branch (an `if` whose then branch ends in an error,
/// a break or a continue), the walk closes the `if` right after the then branch
/// and goes on with the statements of the else target.
pub proof fn lemma_code_after_if_kept(
    blocks: Seq<BasicBlock>,
    loops: Seq<LoopInfo>,
    idom: Seq<Option<usize>>,
    ipostdom: Seq<usize>,
    b: usize,
    header: Option<usize>,
    exit: Option<usize>,
    visited: Set<usize>,
    fuel: nat,
    num_type: NumericType,
    condition: SpecExpression,
    to_then: usize,
    to_else: usize,
)
    requires
        !visited.contains(b),
        exit != Some(b),
        fuel >= 2,
        opt_succ(blocks[b as int].successors) == Some(SpecSuccessor::Conditional { num_type, condition, to_then, to_else }),
        region_join(ipostdom, blocks.len(), b, header, exit) is None,
        !forward_reach(blocks, idom, to_then, to_else),
        exit != Some(to_else),
        !region(blocks, loops, idom, ipostdom, to_then, header, exit, visited.insert(b), (fuel - 1) as nat).1.contains(to_else),
    ensures
        begins(
            statement_lines(stmts_view(blocks[b as int].statements@)) + cond_line(num_type, condition) + region(
                blocks,
                loops,
                idom,
                ipostdom,
                to_then,
                header,
                exit,
                visited.insert(b),
                (fuel - 1) as nat,
            ).0 + "end"@ + "\n"@ + statement_lines(stmts_view(blocks[to_else as int].statements@)),
            region(blocks, loops, idom, ipostdom, b, header, exit, visited, fuel).0,
        ),
{
    let f = (fuel - 1) as nat;
    let then_part = region(blocks, loops, idom, ipostdom, to_then, header, exit, visited.insert(b), f);
    let rest = region(blocks, loops, idom, ipostdom, to_else, header, exit, then_part.1, f);
    let head = statement_lines(stmts_view(blocks[b as int].statements@)) + cond_line(num_type, condition) + then_part.0 + "end"@
        + "\n"@;
    let se = statement_lines(stmts_view(blocks[to_else as int].statements@));
    reveal(region);
    assert(region(blocks, loops, idom, ipostdom, b, header, exit, visited, fuel).0 =~= head + rest.0);
    assert(begins(se, rest.0)) by {
        reveal(begins);
        assert(rest.0.subrange(0, se.len() as int) =~= se);
    }
    assert(begins(head + se, head + rest.0)) by {
        reveal(begins);
        assert((head + rest.0).subrange(0, (head + se).len() as int) =~= head + se);
    }
}

pub struct Emitter<'a> {
    pub blocks: &'a Vec<BasicBlock>,
    pub loops: &'a Vec<LoopInfo>,
    pub idom: &'a Vec<Option<usize>>,
    pub ipostdom: Vec<usize>,
    pub indent: usize,
    pub output: String,
}

impl<'a> Emitter<'a> {
    pub open spec fn wf(&self) -> bool {
        &&& links_ok(self.blocks@)
        &&& self.blocks@.len() < usize::MAX
        &&& self.ipostdom@.len() == self.blocks@.len()
        &&& forall|b: int| 0 <= b < self.ipostdom@.len() ==> #[trigger] self.ipostdom@[b] <= self.blocks@.len()
        &&& forall|i: int| 0 <= i < self.loops@.len() ==> loop_ok(self.blocks@, #[trigger] self.loops@[i])
    }

    pub fn new(blocks: &'a Vec<BasicBlock>, loops: &'a Vec<LoopInfo>, idom: &'a Vec<Option<usize>>) -> (e: Self)
        requires
            links_ok(blocks@),
            blocks@.len() < usize::MAX,
            forall|i: int| 0 <= i < loops@.len() ==> loop_ok(blocks@, #[trigger] loops@[i]),
        ensures
            e.wf(),
            e.blocks == blocks,
            e.loops == loops,
            e.idom == idom,
            e.indent == 0,
            e.output@ == Seq::<char>::empty(),
    {
        let ipostdom = compute_ipostdom(blocks);
        Emitter { blocks, loops, idom, ipostdom, indent: 0, output: String::new() }
    }

    /// Structural join of the conditional at `block_id`: its immediate post-dominator,
    /// or `None` when that is the virtual exit (no real merge point).
    pub fn join_of(&self, block_id: usize) -> (r: Option<usize>)
        requires
            self.wf(),
            block_id < self.blocks@.len(),
        ensures
            r == (if self.ipostdom@[block_id as int] >= self.blocks@.len() {
                None
            } else {
                Some(self.ipostdom@[block_id as int])
            }),
    {
        let j = self.ipostdom[block_id];
        if j >= self.blocks.len() {
            None
        } else {
            Some(j)
        }
    }

    /// Writes a line. No leading indentation is emitted: the CVM consumer rejects
    /// any leading whitespace on a line, so block bodies start at column 0 even
    /// inside `ff.if` / `loop` blocks; `indent` is only tracked.
    pub fn emit_line(&mut self, line: &str)
        ensures
            final(self).output@ == old(self).output@ + line@ + "\n"@,
            forall|t: Seq<char>| #[trigger] begins(t, old(self).output@) ==> begins(t, final(self).output@),
            final(self).blocks == old(self).blocks,
            final(self).loops == old(self).loops,
            final(self).idom == old(self).idom,
            final(self).ipostdom == old(self).ipostdom,
            final(self).indent == old(self).indent,
    {
        push_text(&mut self.output, line);
        push_text(&mut self.output, "\n");
        proof {
            assert forall|t: Seq<char>| #[trigger] begins(t, old(self).output@) implies begins(t, self.output@) by {
                assert(self.output@ =~= old(self).output@ + (line@ + "\n"@));
                lemma_prefix_append(t, old(self).output@, line@ + "\n"@);
            }
        }
    }

    /// Writes the statements of a block, one per line.
    pub fn emit_statements(&mut self, block_id: usize)
        requires
            block_id < old(self).blocks@.len(),
        ensures
            final(self).output@ == old(self).output@ + statement_lines(stmts_view(old(self).blocks@[block_id as int].statements@)),
            forall|t: Seq<char>| #[trigger] begins(t, old(self).output@) ==> begins(t, final(self).output@),
            final(self).blocks == old(self).blocks,
            final(self).loops == old(self).loops,
            final(self).idom == old(self).idom,
            final(self).ipostdom == old(self).ipostdom,
            final(self).indent == old(self).indent,
    {
        let blocks = self.blocks;
        let stmts = &blocks[block_id].statements;
        let ghost sv = stmts_view(stmts@);
        let ghost start = self.output@;
        let mut i: usize = 0;
        while i < stmts.len()
            invariant
                self.blocks == blocks,
                self.loops == old(self).loops,
                self.idom == old(self).idom,
                self.ipostdom == old(self).ipostdom,
                self.indent == old(self).indent,
                sv == stmts_view(stmts@),
                i <= stmts@.len(),
                self.output@ == start + statement_lines(sv.take(i as int)),
            decreases stmts@.len() - i,
        {
            let line = statement_to_cvm(&stmts[i]);
            self.emit_line(line.as_str());
            proof {
                assert(sv.take(i + 1).drop_last() =~= sv.take(i as int));
                assert(sv.take(i + 1).last() == stmts@[i as int]@);
            }
            i = i + 1;
        }
        proof {
            assert(sv.take(stmts@.len() as int) =~= sv);
            assert forall|t: Seq<char>| #[trigger] begins(t, old(self).output@) implies begins(t, self.output@) by {
                lemma_prefix_append(t, start, statement_lines(sv));
            }
        }
    }

    /// The first loop with the given header.
    pub fn find_loop_for_header(&self, header: usize) -> (r: Option<usize>)
        ensures
            match r {
                Some(i) => i < self.loops@.len() && self.loops@[i as int].header == header && forall|k: int|
                    0 <= k < i ==> (#[trigger] self.loops@[k]).header != header,
                None => forall|k: int| 0 <= k < self.loops@.len() ==> (#[trigger] self.loops@[k]).header != header,
            },
    {
        let mut i: usize = 0;
        while i < self.loops.len()
            invariant
                i <= self.loops@.len(),
                forall|k: int| 0 <= k < i ==> (#[trigger] self.loops@[k]).header != header,
            decreases self.loops@.len() - i,
        {
            if self.loops[i].header == header {
                return Some(i);
            }
            i = i + 1;
        }
        None
    }

    /// The first loop whose body holds the block.
    pub fn find_containing_loop(&self, block: usize) -> (r: Option<usize>)
        ensures
            match r {
                Some(i) => i < self.loops@.len() && block < self.loops@[i as int].body@.len()
                    && self.loops@[i as int].body@[block as int] && forall|k: int|
                    0 <= k < i ==> !(block < (#[trigger] self.loops@[k]).body@.len() && self.loops@[k].body@[block as int]),
                None => forall|k: int|
                    0 <= k < self.loops@.len() ==> !(block < (#[trigger] self.loops@[k]).body@.len()
                        && self.loops@[k].body@[block as int]),
            },
    {
        let mut i: usize = 0;
        while i < self.loops.len()
            invariant
                i <= self.loops@.len(),
                forall|k: int|
                    0 <= k < i ==> !(block < (#[trigger] self.loops@[k]).body@.len() && self.loops@[k].body@[block as int]),
            decreases self.loops@.len() - i,
        {
            if block < self.loops[i].body.len() && self.loops[i].body[block] {
                return Some(i);
            }
            i = i + 1;
        }
        None
    }

    /// The blocks reached from `start` along edges that do not go back to a dominator
    /// of their source (a flag for each block).
    pub fn collect_reachable_forward(&self, start: usize) -> (reached: Vec<bool>)
        requires
            self.wf(),
            start < self.blocks@.len(),
        ensures
            reached@.len() == self.blocks@.len(),
            reached@[start as int],
            forall|x: int| 0 <= x < reached@.len() && #[trigger] reached@[x] ==> reachable(self.blocks@, start, x as usize),
            forall|x: int|
                0 <= x < reached@.len() ==> (#[trigger] reached@[x] <==> forward_reach(self.blocks@, self.idom@, start, x as usize)),
    {
        let n = self.blocks.len();
        let mut visited: Vec<bool> = Vec::new();
        let mut i: usize = 0;
        while i < n
            invariant
                n == self.blocks@.len(),
                i <= n,
                visited@.len() == i,
                forall|k: int| 0 <= k < i ==> !visited@[k],
            decreases n - i,
        {
            visited.push(false);
            i = i + 1;
        }
        let mut stack: Vec<usize> = Vec::new();
        stack.push(start);
        proof {
            crate::liveness::lemma_reachable_refl(self.blocks@, start);
            lemma_forward_refl(self.blocks@, self.idom@, start);
            assert(stack@[0] == start);
        }
        while stack.len() > 0
            invariant
                self.wf(),
                n == self.blocks@.len(),
                start < n,
                visited@.len() == n,
                forall|k: int| 0 <= k < stack@.len() ==> #[trigger] stack@[k] < n && reachable(self.blocks@, start, stack@[k]),
                forall|k: int| 0 <= k < stack@.len() ==> forward_reach(self.blocks@, self.idom@, start, #[trigger] stack@[k]),
                forall|x: int| 0 <= x < n && #[trigger] visited@[x] ==> reachable(self.blocks@, start, x as usize),
                forall|x: int| 0 <= x < n && #[trigger] visited@[x] ==> forward_reach(self.blocks@, self.idom@, start, x as usize),
                visited@[start as int] || stack@.contains(start),
                forall|x: usize, t: usize|
                    x < n && visited@[x as int] && #[trigger] forward_edge(self.blocks@, self.idom@, x, t) ==> visited@[t as int]
                        || stack@.contains(t),
            decreases crate::liveness::count_false(visited@), stack@.len(),
        {
            let ghost st0 = stack@;
            let ghost v0 = visited@;
            let b = stack.pop().unwrap();
            proof {
                assert(stack@ =~= st0.drop_last());
                assert(b == st0[st0.len() - 1]);
                assert forall|y: usize| #[trigger] st0.contains(y) implies stack@.contains(y) || y == b by {
                    let k = choose|k: int| 0 <= k < st0.len() && st0[k] == y;
                    if k < st0.len() - 1 {
                        assert(stack@[k] == y);
                    }
                }
            }
            if !visited[b] {
                proof {
                    crate::liveness::lemma_count_false_set(visited@, b as int);
                    assert(self.blocks@[b as int].links_below(n as nat));
                }
                visited.set(b, true);
                let targets = targets_of(&self.blocks[b].successors);
                let ghost s1 = stack@;
                let mut j: usize = 0;
                while j < targets.len()
                    invariant
                        self.wf(),
                        n == self.blocks@.len(),
                        start < n,
                        b < n,
                        reachable(self.blocks@, start, b),
                        forward_reach(self.blocks@, self.idom@, start, b),
                        targets@ == succ_targets(self.blocks@[b as int].successors),
                        self.blocks@[b as int].links_below(n as nat),
                        j <= targets@.len(),
                        visited@.len() == n,
                        forall|k: int| 0 <= k < stack@.len() ==> #[trigger] stack@[k] < n && reachable(self.blocks@, start, stack@[k]),
                        forall|k: int| 0 <= k < stack@.len() ==> forward_reach(self.blocks@, self.idom@, start, #[trigger] stack@[k]),
                        forall|k: int| 0 <= k < s1.len() ==> #[trigger] stack@[k] == s1[k],
                        s1.len() <= stack@.len(),
                        forall|jj: int|
                            0 <= jj < j && !dominated(self.idom@, #[trigger] targets@[jj], b) ==> stack@.contains(targets@[jj]),
                    decreases targets@.len() - j,
                {
                    let t = targets[j];
                    if !dominates(t, b, self.idom) {
                        proof {
                            assert(succ_targets(self.blocks@[b as int].successors)[j as int] == t);
                            assert(crate::liveness::edge(self.blocks@, b, t));
                            crate::liveness::lemma_extend_path(self.blocks@, start, b, t);
                            assert(forward_edge(self.blocks@, self.idom@, b, t));
                            lemma_forward_extend(self.blocks@, self.idom@, start, b, t);
                        }
                        let ghost s2 = stack@;
                        stack.push(t);
                        proof {
                            assert forall|k: int| 0 <= k < stack@.len() implies #[trigger] stack@[k] < n && reachable(self.blocks@, start, stack@[k]) by {
                                if k < s2.len() {
                                    assert(stack@[k] == s2[k]);
                                }
                            }
                            assert forall|k: int| 0 <= k < stack@.len() implies forward_reach(self.blocks@, self.idom@, start, #[trigger] stack@[k]) by {
                                if k < s2.len() {
                                    assert(stack@[k] == s2[k]);
                                }
                            }
                            assert forall|jj: int|
                                0 <= jj < j + 1 && !dominated(self.idom@, #[trigger] targets@[jj], b) implies stack@.contains(targets@[jj]) by {
                                if jj < j {
                                    let k = choose|k: int| 0 <= k < s2.len() && s2[k] == targets@[jj];
                                    assert(stack@[k] == targets@[jj]);
                                } else {
                                    assert(stack@[s2.len() as int] == t);
                                }
                            }
                        }
                    }
                    j = j + 1;
                }
                proof {
                    assert forall|y: usize| #[trigger] s1.contains(y) implies stack@.contains(y) by {
                        let k = choose|k: int| 0 <= k < s1.len() && s1[k] == y;
                        assert(stack@[k] == y);
                    }
                    assert forall|x: usize, t: usize|
                        x < n && visited@[x as int] && #[trigger] forward_edge(self.blocks@, self.idom@, x, t) implies visited@[t as int]
                            || stack@.contains(t) by {
                        if x == b {
                            let jj = choose|jj: int| 0 <= jj < targets@.len() && targets@[jj] == t;
                            assert(!dominated(self.idom@, targets@[jj], b));
                        } else {
                            assert(v0[x as int]);
                            assert(self.blocks@[x as int].links_below(n as nat));
                            if !v0[t as int] {
                                assert(st0.contains(t));
                                if t != b {
                                    assert(s1.contains(t));
                                }
                            }
                        }
                    }
                    if !visited@[start as int] {
                        assert(st0.contains(start));
                        assert(s1.contains(start));
                    }
                }
            } else {
                proof {
                    assert forall|x: usize, t: usize|
                        x < n && visited@[x as int] && #[trigger] forward_edge(self.blocks@, self.idom@, x, t) implies visited@[t as int]
                            || stack@.contains(t) by {
                        if !visited@[t as int] {
                            assert(st0.contains(t));
                        }
                    }
                    if !visited@[start as int] {
                        assert(st0.contains(start));
                    }
                }
            }
        }
        proof {
            assert forall|x: int| 0 <= x < visited@.len() implies (#[trigger] visited@[x] <==> forward_reach(self.blocks@, self.idom@, start, x as usize)) by {
                if forward_reach(self.blocks@, self.idom@, start, x as usize) {
                    let p = choose|p: Seq<usize>| #[trigger] forward_path(self.blocks@, self.idom@, p) && p[0] == start && p.last() == x as usize;
                    lemma_forward_closed(self.blocks@, self.idom@, visited@, p, p.len() - 1);
                }
            }
        }
        visited
    }

    /// Writes the code of `block_id` and of the blocks that follow it in the same
    /// structured region: a conditional becomes `if`/`else`/`end` up to its join (its
    /// immediate post-dominator), an edge to a loop header becomes `loop`/`end`, and
    /// edges to the enclosing loop's header and exit become `continue` and `break`.
    /// Nested regions are written at most `fuel` levels deep.
    pub fn emit_block(
        &mut self,
        block_id: usize,
        loop_header: Option<usize>,
        loop_exit: Option<usize>,
        visited: &mut ItemSet<usize>,
        fuel: usize,
    )
        requires
            old(self).wf(),
            old(visited).wf(),
            block_id < old(self).blocks@.len(),
            loop_header matches Some(h) ==> h < old(self).blocks@.len(),
            loop_exit matches Some(x) ==> x < old(self).blocks@.len(),
            old(self).indent + fuel < usize::MAX,
        ensures
            final(self).wf(),
            final(visited).wf(),
            final(self).blocks == old(self).blocks,
            final(self).loops == old(self).loops,
            final(self).idom == old(self).idom,
            final(self).ipostdom == old(self).ipostdom,
            final(self).indent == old(self).indent,
            forall|t: Seq<char>| #[trigger] begins(t, old(self).output@) ==> begins(t, final(self).output@),
            final(self).output@ == old(self).output@ + region(
                old(self).blocks@,
                old(self).loops@,
                old(self).idom@,
                old(self).ipostdom@,
                block_id,
                loop_header,
                loop_exit,
                old(visited)@,
                fuel as nat,
            ).0,
            final(visited)@ == region(
                old(self).blocks@,
                old(self).loops@,
                old(self).idom@,
                old(self).ipostdom@,
                block_id,
                loop_header,
                loop_exit,
                old(visited)@,
                fuel as nat,
            ).1,
        decreases fuel, 1nat,
    {
        if visited.contains(&block_id) {
            proof {
                reveal(region);
                lemma_begins_refl(self.output@);
                assert(self.output@ =~= self.output@ + Seq::<char>::empty());
            }
            return;
        }
        if loop_exit == Some(block_id) {
            self.emit_line("break");
            proof {
                reveal(region);
                assert(self.output@ =~= old(self).output@ + ("break"@ + "\n"@));
            }
            return;
        }
        if fuel == 0 {
            proof {
                reveal(region);
                lemma_begins_refl(self.output@);
                assert(self.output@ =~= self.output@ + Seq::<char>::empty());
            }
            return;
        }
        let ghost v0 = visited@;
        let ghost pre = self.output@;
        visited.insert(block_id);
        self.emit_statements(block_id);
        proof {
            assert(self.blocks@[block_id as int].links_below(self.blocks@.len()));
        }
        let succ = match &self.blocks[block_id].successors {
            Some(s) => Some(s.duplicate()),
            None => None,
        };
        proof {
            assert(opt_succ(old(self).blocks@[block_id as int].successors) == match succ {
                Some(x) => Some(x@),
                None => None::<SpecSuccessor>,
            });
        }
        match succ {
            None => {
                proof {
                    reveal(region);
                    lemma_begins_refl(self.output@);
                    assert(self.output@ =~= old(self).output@ + region(
                old(self).blocks@,
                old(self).loops@,
                old(self).idom@,
                old(self).ipostdom@,
                block_id,
                loop_header,
                loop_exit,
                old(visited)@,
                fuel as nat,
            ).0);
                }
            },
            Some(Successor::Unconditional { to }) => {
                proof {
                    assert(succ_targets(self.blocks@[block_id as int].successors)[0] == to);
                }
                self.emit_jump(block_id, to, loop_header, loop_exit, visited, fuel, Ghost(v0), Ghost(pre));
            },
            Some(Successor::Conditional { num_type, condition, to_then, to_else }) => {
                proof {
                    assert(succ_targets(self.blocks@[block_id as int].successors)[0] == to_then);
                    assert(succ_targets(self.blocks@[block_id as int].successors)[1] == to_else);
                }
                self.emit_branch(block_id, num_type, &condition, to_then, to_else, loop_header, loop_exit, visited, fuel, Ghost(v0), Ghost(pre));
            },
        }
        proof {
            assert forall|t: Seq<char>| #[trigger] begins(t, old(self).output@) implies begins(t, self.output@) by {
                reveal(begins);
            }
        }
    }

    /// Writes what follows the statements of block `block_id`, which jumps to `to`:
    /// `continue` or `break` for the enclosing loop's header or exit, a `loop` … `end`
    /// for the header of another loop followed by that loop's exit, and otherwise the
    /// region of `to`. `v0` holds the blocks written before `block_id`, and `pre` the
    /// text before its statements.
    #[verifier::rlimit(100)]
    #[verifier::spinoff_prover]
    fn emit_jump(
        &mut self,
        block_id: usize,
        to: usize,
        loop_header: Option<usize>,
        loop_exit: Option<usize>,
        visited: &mut ItemSet<usize>,
        fuel: usize,
        Ghost(v0): Ghost<Set<usize>>,
        Ghost(pre): Ghost<Seq<char>>,
    )
        requires
            old(self).wf(),
            old(visited).wf(),
            fuel > 0,
            block_id < old(self).blocks@.len(),
            loop_header matches Some(h) ==> h < old(self).blocks@.len(),
            loop_exit matches Some(x) ==> x < old(self).blocks@.len(),
            old(self).indent + fuel < usize::MAX,
            !v0.contains(block_id),
            loop_exit != Some(block_id),
            old(visited)@ == v0.insert(block_id),
            old(self).output@ == pre + statement_lines(stmts_view(old(self).blocks@[block_id as int].statements@)),
            opt_succ(old(self).blocks@[block_id as int].successors) == Some(SpecSuccessor::Unconditional { to }),
            to < old(self).blocks@.len(),
        ensures
            final(self).wf(),
            final(visited).wf(),
            final(self).blocks == old(self).blocks,
            final(self).loops == old(self).loops,
            final(self).idom == old(self).idom,
            final(self).ipostdom == old(self).ipostdom,
            final(self).indent == old(self).indent,
            forall|t: Seq<char>| #[trigger] begins(t, old(self).output@) ==> begins(t, final(self).output@),
            final(self).output@ == pre + region(
                old(self).blocks@,
                old(self).loops@,
                old(self).idom@,
                old(self).ipostdom@,
                block_id,
                loop_header,
                loop_exit,
                v0,
                fuel as nat,
            ).0,
            final(visited)@ == region(
                old(self).blocks@,
                old(self).loops@,
                old(self).idom@,
                old(self).ipostdom@,
                block_id,
                loop_header,
                loop_exit,
                v0,
                fuel as nat,
            ).1,
        decreases fuel, 0nat,
    {
        let ghost bl = self.blocks@;
        let ghost lp = self.loops@;
        let ghost id = self.idom@;
        let ghost ip = self.ipostdom@;
        let ghost f = (fuel - 1) as nat;
        let ghost start = self.output@;
        let ghost sl = statement_lines(stmts_view(bl[block_id as int].statements@));
        if loop_header == Some(to) {
            self.emit_line("continue");
            proof {
                reveal(region);
                assert(self.output@ =~= pre + (sl + "continue"@ + "\n"@));
            }
        } else if loop_exit == Some(to) {
            self.emit_line("break");
            proof {
                reveal(region);
                assert(self.output@ =~= pre + (sl + "break"@ + "\n"@));
            }
        } else {
            match self.find_loop_for_header(to) {
                Some(li) => {
                    let exit = self.loops[li].exit;
                    proof {
                        assert(loop_ok(self.blocks@, self.loops@[li as int]));
                        assert(lp[li as int].header == to);
                        let c = choose|k: int|
                            0 <= k < lp.len() && lp[k].header == to && forall|k2: int| 0 <= k2 < k ==> (#[trigger] lp[k2]).header != to;
                        if c < li {
                            assert(lp[c].header != to);
                        }
                        if li < c {
                            assert(lp[li as int].header != to);
                        }
                        assert(loop_of_header(lp, to) == Some(li as int));
                    }
                    let ghost v1 = visited@;
                    let ghost inner = region(bl, lp, id, ip, to, Some(to), Some(exit), v1, f);
                    self.emit_line("loop");
                    self.indent = self.indent + 1;
                    self.emit_block(to, Some(to), Some(exit), visited, fuel - 1);
                    let ghost after_inner = self.output@;
                    self.indent = self.indent - 1;
                    self.emit_line("end");
                    let ghost before_after = self.output@;
                    let ghost after = region(bl, lp, id, ip, exit, loop_header, loop_exit, visited@, f);
                    self.emit_block(exit, loop_header, loop_exit, visited, fuel - 1);
                    proof {
                        assert(after_inner == start + "loop"@ + "\n"@ + inner.0);
                        assert(before_after == after_inner + "end"@ + "\n"@);
                        assert(self.output@ == before_after + after.0);
                        reveal(region);
                        assert(self.output@ =~= pre + (sl + "loop"@ + "\n"@ + inner.0 + "end"@ + "\n"@ + after.0));
                    }
                },
                None => {
                    let ghost v1 = visited@;
                    let ghost next = region(bl, lp, id, ip, to, loop_header, loop_exit, v1, f);
                    self.emit_block(to, loop_header, loop_exit, visited, fuel - 1);
                    proof {
                        assert(loop_of_header(lp, to) is None);
                        reveal(region);
                        assert(self.output@ =~= pre + (sl + next.0));
                    }
                },
            }
        }
        proof {
            assert forall|t: Seq<char>| #[trigger] begins(t, start) implies begins(t, self.output@) by {
                reveal(begins);
            }
        }
    }

    /// Writes what follows the statements of block `block_id`, which ends in a
    /// conditional: the `if` line, the then-branch, an `else` branch unless the else
    /// target is the join or only follows the `if`, `end`, a `break` where the else
    /// target is the enclosing loop's exit, and then the join's region. `v0` holds the
    /// blocks written before `block_id`, and `pre` the text before its statements.
    #[verifier::rlimit(100)]
    #[verifier::spinoff_prover]
    fn emit_branch(
        &mut self,
        block_id: usize,
        num_type: NumericType,
        condition: &Expression,
        to_then: usize,
        to_else: usize,
        loop_header: Option<usize>,
        loop_exit: Option<usize>,
        visited: &mut ItemSet<usize>,
        fuel: usize,
        Ghost(v0): Ghost<Set<usize>>,
        Ghost(pre): Ghost<Seq<char>>,
    )
        requires
            old(self).wf(),
            old(visited).wf(),
            fuel > 0,
            block_id < old(self).blocks@.len(),
            loop_header matches Some(h) ==> h < old(self).blocks@.len(),
            loop_exit matches Some(x) ==> x < old(self).blocks@.len(),
            old(self).indent + fuel < usize::MAX,
            !v0.contains(block_id),
            loop_exit != Some(block_id),
            old(visited)@ == v0.insert(block_id),
            old(self).output@ == pre + statement_lines(stmts_view(old(self).blocks@[block_id as int].statements@)),
            opt_succ(old(self).blocks@[block_id as int].successors) == Some(SpecSuccessor::Conditional {
                num_type,
                condition: condition@,
                to_then,
                to_else,
            }),
            to_then < old(self).blocks@.len(),
            to_else < old(self).blocks@.len(),
        ensures
            final(self).wf(),
            final(visited).wf(),
            final(self).blocks == old(self).blocks,
            final(self).loops == old(self).loops,
            final(self).idom == old(self).idom,
            final(self).ipostdom == old(self).ipostdom,
            final(self).indent == old(self).indent,
            forall|t: Seq<char>| #[trigger] begins(t, old(self).output@) ==> begins(t, final(self).output@),
            final(self).output@ == pre + region(
                old(self).blocks@,
                old(self).loops@,
                old(self).idom@,
                old(self).ipostdom@,
                block_id,
                loop_header,
                loop_exit,
                v0,
                fuel as nat,
            ).0,
            final(visited)@ == region(
                old(self).blocks@,
                old(self).loops@,
                old(self).idom@,
                old(self).ipostdom@,
                block_id,
                loop_header,
                loop_exit,
                v0,
                fuel as nat,
            ).1,
        decreases fuel, 0nat,
    {
        let ghost bl = self.blocks@;
        let ghost lp = self.loops@;
        let ghost id = self.idom@;
        let ghost ip = self.ipostdom@;
        let ghost f = (fuel - 1) as nat;
        let ghost start = self.output@;
        let ghost sl = statement_lines(stmts_view(bl[block_id as int].statements@));
        let mut line = String::new();
        match num_type {
            NumericType::Integer => push_text(&mut line, "i64"),
            NumericType::FiniteField => push_text(&mut line, "ff"),
        }
        push_text(&mut line, ".if ");
        push_text(&mut line, expression_to_cvm(condition).as_str());
        self.emit_line(line.as_str());
        let ghost out1 = self.output@;
        proof {
            assert(out1 =~= start + cond_line(num_type, condition@));
        }
        self.indent = self.indent + 1;
        // The structural join is the conditional's immediate post-dominator. A join
        // that coincides with the enclosing loop's exit or header is not an inline
        // continuation (it is handled by the loop's `break`/`continue` machinery), so
        // it is treated as "no join" here.
        let join = match self.join_of(block_id) {
            Some(j) => if loop_exit == Some(j) || loop_header == Some(j) {
                None
            } else {
                Some(j)
            },
            None => None,
        };
        proof {
            assert(join == region_join(ip, bl.len(), block_id, loop_header, loop_exit));
        }
        if let Some(j) = join {
            visited.insert(j);
        }
        let ghost then_part = region(bl, lp, id, ip, to_then, loop_header, loop_exit, visited@, f);
        self.emit_block(to_then, loop_header, loop_exit, visited, fuel - 1);
        let ghost after_then = self.output@;
        let ghost then_visited = visited@;
        self.indent = self.indent - 1;
        let then_forward = self.collect_reachable_forward(to_then);
        // No-else (normal): to_else IS the join point
        let no_else_join = join == Some(to_else);
        // No-else (exception): then-branch never reaches to_else (e.g. ends in `error`)
        let no_else_exc = join.is_none() && !then_forward[to_else] && loop_exit != Some(to_else);
        let no_else = no_else_join || no_else_exc;
        // Loop-condition: else is just a break → emit `end` then `break`
        let break_after = join.is_none() && loop_exit == Some(to_else);
        proof {
            assert(then_forward@[to_else as int] == forward_reach(bl, id, to_then, to_else));
        }
        let ghost else_region = region(bl, lp, id, ip, to_else, loop_header, loop_exit, then_visited, f);
        if !no_else && !break_after {
            self.emit_line("else");
            self.indent = self.indent + 1;
            self.emit_block(to_else, loop_header, loop_exit, visited, fuel - 1);
            self.indent = self.indent - 1;
        }
        let ghost before_end = self.output@;
        let ghost else_visited = visited@;
        let ghost else_text = if !no_else && !break_after {
            "else"@ + "\n"@ + else_region.0
        } else {
            Seq::<char>::empty()
        };
        proof {
            assert(before_end =~= after_then + else_text);
            assert(else_visited == (if !no_else && !break_after { else_region.1 } else { then_visited }));
        }
        self.emit_line("end");
        if break_after {
            self.emit_line("break");
        }
        let ghost before_rest = self.output@;
        let ghost brk = if break_after { "break"@ + "\n"@ } else { Seq::<char>::empty() };
        proof {
            assert(before_rest =~= before_end + "end"@ + "\n"@ + brk);
        }
        let ghost rest = match join {
            Some(j) => region(bl, lp, id, ip, j, loop_header, loop_exit, else_visited.remove(j), f),
            None => if no_else_exc {
                region(bl, lp, id, ip, to_else, loop_header, loop_exit, else_visited, f)
            } else {
                (Seq::<char>::empty(), else_visited)
            },
        };
        if let Some(j) = join {
            visited.remove(&j);
            self.emit_block(j, loop_header, loop_exit, visited, fuel - 1);
        } else if no_else_exc {
            // to_else is the continuation after the if (not emitted as else)
            self.emit_block(to_else, loop_header, loop_exit, visited, fuel - 1);
        }
        proof {
            assert(self.output@ == before_rest + rest.0);
            assert(visited@ == rest.1);
            assert(self.output@ =~= pre + (sl + cond_line(num_type, condition@) + then_part.0 + else_text + "end"@ + "\n"@ + brk + rest.0));
            reveal(region);
            assert(self.output@ == pre + region(bl, lp, id, ip, block_id, loop_header, loop_exit, v0, fuel as nat).0);
            assert forall|t: Seq<char>| #[trigger] begins(t, start) implies begins(t, self.output@) by {
                reveal(begins);
            }
        }
    }
}

proof fn lemma_is_prefix_of_concat(a: Seq<char>, b: Seq<char>)
    ensures
        a.is_prefix_of(a + b),
{
    assert((a + b).subrange(0, a.len() as int) =~= a);
}

/// The CVM body of a graph: the structural walk from its entry.
pub fn cfg_to_cvm_body(cfg: &CFG) -> (body: String)
    requires
        cfg.wf(),
        cfg.blocks@.len() < usize::MAX,
    ensures
        begins(statement_lines(stmts_view(cfg.blocks@[cfg.entry as int].statements@)), body@),
        cfg.blocks@[cfg.entry as int].successors is None ==> body@ == statement_lines(
            stmts_view(cfg.blocks@[cfg.entry as int].statements@),
        ),
        cfg.blocks@[cfg.entry as int].successors matches Some(Successor::Conditional { num_type, condition, .. }) ==> begins(
            statement_lines(stmts_view(cfg.blocks@[cfg.entry as int].statements@)) + cond_line(num_type, condition@),
            body@,
        ),
{
    proof {
        assert forall|i: int| 0 <= i < cfg.blocks@.len() implies #[trigger] cfg.blocks@[i].links_below(cfg.blocks@.len()) by {
            assert(cfg.block_ok(i));
        }
    }
    let idom = compute_idom(&cfg.blocks, cfg.entry);
    let loops = find_loops(&cfg.blocks, &idom);
    let mut emitter = Emitter::new(&cfg.blocks, &loops, &idom);
    let mut visited: ItemSet<usize> = ItemSet::new();
    let n = cfg.blocks.len();
    let fuel: usize = if n < (usize::MAX - 4) / 2 { 2 * n + 2 } else { usize::MAX - 2 };
    let ghost ip = emitter.ipostdom@;
    let ghost out0 = emitter.output@;
    emitter.emit_block(cfg.entry, None, None, &mut visited, fuel);
    proof {
        let sl = statement_lines(stmts_view(cfg.blocks@[cfg.entry as int].statements@));
        let rg = region(cfg.blocks@, loops@, idom@, ip, cfg.entry, None, None, Set::<usize>::empty(), fuel as nat);
        assert(emitter.output@ == out0 + rg.0);
        assert(out0 == Seq::<char>::empty());
        assert(emitter.output@ =~= rg.0);
        reveal(region);
        reveal(begins);
        assert(opt_succ(cfg.blocks@[cfg.entry as int].successors) == match cfg.blocks@[cfg.entry as int].successors {
            Some(x) => Some(x@),
            None => None::<SpecSuccessor>,
        });
        lemma_is_prefix_of_concat(sl, rg.0.subrange(sl.len() as int, rg.0.len() as int));
        match cfg.blocks@[cfg.entry as int].successors {
            Some(Successor::Conditional { num_type, condition, .. }) => {
                let t = sl + cond_line(num_type, condition@);
                assert(rg.0 =~= t + rg.0.subrange(t.len() as int, rg.0.len() as int));
                lemma_is_prefix_of_concat(t, rg.0.subrange(t.len() as int, rg.0.len() as int));
                assert(rg.0 =~= sl + rg.0.subrange(sl.len() as int, rg.0.len() as int));
            },
            Some(Successor::Unconditional { .. }) => {
                assert(rg.0 =~= sl + rg.0.subrange(sl.len() as int, rg.0.len() as int));
            },
            None => {
                assert(rg.0 =~= sl + rg.0.subrange(sl.len() as int, rg.0.len() as int));
            },
        }
    }
    emitter.output
}

} // verus!
