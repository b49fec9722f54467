//! Graphviz renderings of control flow graphs: one box per block with its
//! instructions written as their debugging text, the edges between blocks, and
//! boxes with the def-use chains and the definitions.

use vstd::prelude::*;

use crate::cfg::{
    names_view, opt_succ, phis_view, stmts_view, use_block, BasicBlock, LineInstruction,
    PhiFunction, SpecPhi, SpecStatement, SpecSuccessor, Statement, Successor, Use, CFG,
};
use crate::collections::ItemSet;
use crate::cvm_emission::{ff_value, push_signed_decimal};
use crate::text::{decimal, push_char, push_decimal, push_decimal_wide, push_text, signed_decimal};
use crate::types::{
    Atomic, BigNum, ConstantType, Expression, NumericType, Operator, Parameter, SpecAtomic,
    SpecConstant, SpecExpression, SpecParameter,
};

verus! {

broadcast use vstd::string::group_string_axioms;

// ---------------------------------------------------------------------------
// Joining and escaping text
// ---------------------------------------------------------------------------

/// The parts separated by `sep`.
pub open spec fn joined(parts: Seq<Seq<char>>, sep: Seq<char>) -> Seq<char>
    decreases parts.len(),
{
    if parts.len() == 0 {
        Seq::empty()
    } else if parts.len() == 1 {
        parts[0]
    } else {
        joined(parts.drop_last(), sep) + sep + parts.last()
    }
}

/// Appends the texts of `parts` separated by `sep`.
pub fn push_joined(s: &mut String, parts: &Vec<String>, sep: &str)
    ensures
        final(s)@ == old(s)@ + joined(names_view(parts@), sep@),
{
    let ghost start = s@;
    let ghost v = names_view(parts@);
    let mut i: usize = 0;
    proof {
        assert(v.take(0) =~= Seq::<Seq<char>>::empty());
        assert(s@ =~= start + joined(v.take(0), sep@));
    }
    while i < parts.len()
        invariant
            i <= parts@.len(),
            v == names_view(parts@),
            s@ == start + joined(v.take(i as int), sep@),
        decreases parts@.len() - i,
    {
        if i > 0 {
            push_text(s, sep);
        }
        push_text(s, parts[i].as_str());
        proof {
            let t = v.take(i + 1);
            assert(t.drop_last() =~= v.take(i as int));
            assert(t.last() == parts@[i as int]@);
            if i == 0 {
                assert(t.len() == 1);
                assert(s@ =~= start + joined(t, sep@));
            } else {
                assert(s@ =~= start + joined(t, sep@));
            }
        }
        i = i + 1;
    }
    proof {
        assert(v.take(parts@.len() as int) =~= v);
    }
}

/// A character as a quoted debugging text writes it: quotes, backslashes, line
/// breaks, tabs and the nul character are escaped with a backslash.
pub open spec fn escape_char(c: char) -> Seq<char> {
    if c == '"' {
        seq!['\\', '"']
    } else if c == '\\' {
        seq!['\\', '\\']
    } else if c == '\n' {
        seq!['\\', 'n']
    } else if c == '\r' {
        seq!['\\', 'r']
    } else if c == '\t' {
        seq!['\\', 't']
    } else if c == '\0' {
        seq!['\\', '0']
    } else {
        seq![c]
    }
}

pub open spec fn escaped(s: Seq<char>) -> Seq<char>
    decreases s.len(),
{
    if s.len() == 0 {
        Seq::empty()
    } else {
        escaped(s.drop_last()) + escape_char(s.last())
    }
}

/// The debugging text of a string: the string in double quotes, escaped.
pub open spec fn debug_string(s: Seq<char>) -> Seq<char> {
    seq!['"'] + escaped(s) + seq!['"']
}

/// Appends the debugging text of `t`.
pub fn push_debug_string(s: &mut String, t: &str)
    ensures
        final(s)@ == old(s)@ + debug_string(t@),
{
    let ghost start = s@;
    push_char(s, '"');
    let n = t.unicode_len();
    let mut i: usize = 0;
    proof {
        assert(t@.take(0) =~= Seq::<char>::empty());
        assert(s@ =~= start + seq!['"'] + escaped(t@.take(0)));
    }
    while i < n
        invariant
            n == t@.len(),
            i <= n,
            s@ == start + seq!['"'] + escaped(t@.take(i as int)),
        decreases n - i,
    {
        let c = t.get_char(i);
        let ghost before = s@;
        if c == '"' {
            push_char(s, '\\');
            push_char(s, '"');
        } else if c == '\\' {
            push_char(s, '\\');
            push_char(s, '\\');
        } else if c == '\n' {
            push_char(s, '\\');
            push_char(s, 'n');
        } else if c == '\r' {
            push_char(s, '\\');
            push_char(s, 'r');
        } else if c == '\t' {
            push_char(s, '\\');
            push_char(s, 't');
        } else if c == '\0' {
            push_char(s, '\\');
            push_char(s, '0');
        } else {
            push_char(s, c);
        }
        proof {
            let u = t@.take(i + 1);
            assert(u.drop_last() =~= t@.take(i as int));
            assert(u.last() == c);
            assert(s@ =~= before + escape_char(c));
            assert(s@ =~= start + seq!['"'] + escaped(u));
        }
        i = i + 1;
    }
    push_char(s, '"');
    proof {
        assert(t@.take(n as int) =~= t@);
        assert(s@ =~= start + debug_string(t@));
    }
}

/// The text with each double quote preceded by a backslash.
pub open spec fn quote_escaped(s: Seq<char>) -> Seq<char>
    decreases s.len(),
{
    if s.len() == 0 {
        Seq::empty()
    } else {
        quote_escaped(s.drop_last()) + if s.last() == '"' {
            seq!['\\', '"']
        } else {
            seq![s.last()]
        }
    }
}

/// Appends `t` with each double quote preceded by a backslash.
pub fn push_quote_escaped(s: &mut String, t: &str)
    ensures
        final(s)@ == old(s)@ + quote_escaped(t@),
{
    let ghost start = s@;
    let n = t.unicode_len();
    let mut i: usize = 0;
    proof {
        assert(t@.take(0) =~= Seq::<char>::empty());
        assert(s@ =~= start + quote_escaped(t@.take(0)));
    }
    while i < n
        invariant
            n == t@.len(),
            i <= n,
            s@ == start + quote_escaped(t@.take(i as int)),
        decreases n - i,
    {
        let c = t.get_char(i);
        let ghost before = s@;
        if c == '"' {
            push_char(s, '\\');
            push_char(s, '"');
        } else {
            push_char(s, c);
        }
        proof {
            let u = t@.take(i + 1);
            assert(u.drop_last() =~= t@.take(i as int));
            assert(u.last() == c);
            assert(s@ =~= start + quote_escaped(u));
        }
        i = i + 1;
    }
    proof {
        assert(t@.take(n as int) =~= t@);
    }
}

/// The debugging text of a list of names: `["a", "b"]`.
pub open spec fn debug_names(v: Seq<Seq<char>>) -> Seq<char> {
    "["@ + joined(v.map_values(|x: Seq<char>| debug_string(x)), ", "@) + "]"@
}

/// Appends the debugging text of a list of names.
pub fn push_debug_names(s: &mut String, names: &Vec<String>)
    ensures
        final(s)@ == old(s)@ + debug_names(names_view(names@)),
{
    let ghost target = names_view(names@).map_values(|x: Seq<char>| debug_string(x));
    let mut parts: Vec<String> = Vec::new();
    let mut i: usize = 0;
    while i < names.len()
        invariant
            i <= names@.len(),
            target == names_view(names@).map_values(|x: Seq<char>| debug_string(x)),
            names_view(parts@) == target.take(i as int),
        decreases names@.len() - i,
    {
        let mut d = String::new();
        push_debug_string(&mut d, names[i].as_str());
        let ghost p0 = parts@;
        parts.push(d);
        proof {
            assert(Seq::<char>::empty() + debug_string(names@[i as int]@) =~= debug_string(names@[i as int]@));
            assert(names_view(parts@) =~= names_view(p0).push(d@));
            assert(target.take(i + 1) =~= target.take(i as int).push(target[i as int]));
        }
        i = i + 1;
    }
    proof {
        assert(target.take(names@.len() as int) =~= target);
    }
    push_text(s, "[");
    push_joined(s, &parts, ", ");
    push_text(s, "]");
    proof {
        assert(old(s)@ + "["@ + joined(target, ", "@) + "]"@ =~= old(s)@ + debug_names(names_view(names@)));
    }
}

// ---------------------------------------------------------------------------
// Debugging text of operands and instructions
// ---------------------------------------------------------------------------

/// The debugging name of an operator, in lower case.
pub open spec fn debug_operator(op: Operator) -> Seq<char> {
    match op {
        Operator::Add => "add"@,
        Operator::Sub => "sub"@,
        Operator::Mul => "mul"@,
        Operator::Div => "div"@,
        Operator::Rem => "rem"@,
        Operator::IDiv => "idiv"@,
        Operator::Pow => "pow"@,
        Operator::Greater => "greater"@,
        Operator::GreaterEqual => "greaterequal"@,
        Operator::Less => "less"@,
        Operator::LessEqual => "lessequal"@,
        Operator::Equal => "equal"@,
        Operator::NotEqual => "notequal"@,
        Operator::EqualZero => "equalzero"@,
        Operator::And => "and"@,
        Operator::Or => "or"@,
        Operator::ShiftRight => "shiftright"@,
        Operator::ShiftLeft => "shiftleft"@,
        Operator::BitAnd => "bitand"@,
        Operator::BitOr => "bitor"@,
        Operator::BitXor => "bitxor"@,
        Operator::BitNot => "bitnot"@,
        Operator::Extend => "extend"@,
        Operator::Wrap => "wrap"@,
        Operator::Load => "load"@,
        Operator::Store => "store"@,
        Operator::MStore => "mstore"@,
        Operator::MStoreFromSignal => "mstorefromsignal"@,
        Operator::MStoreFromCmpSignal => "mstorefromcmpsignal"@,
        Operator::GetSignal => "getsignal"@,
        Operator::GetCmpSignal => "getcmpsignal"@,
        Operator::SetSignal => "setsignal"@,
        Operator::MSetSignal => "msetsignal"@,
        Operator::MSetSignalFromMemory => "msetsignalfrommemory"@,
        Operator::SetCmpIn => "setcmpin"@,
        Operator::SetCmpInCnt => "setcmpincnt"@,
        Operator::SetCmpInRun => "setcmpinrun"@,
        Operator::SetCmpInCntCheck => "setcmpincntcheck"@,
        Operator::MSetCmpIn => "msetcmpin"@,
        Operator::MSetCmpInCnt => "msetcmpincnt"@,
        Operator::MSetCmpInRun => "msetcmpinrun"@,
        Operator::MSetCmpInCntCheck => "msetcmpincntcheck"@,
        Operator::MSetCmpInFromCmp => "msetcmpinfromcmp"@,
        Operator::MSetCmpInFromCmpCnt => "msetcmpinfromcmpcnt"@,
        Operator::MSetCmpInFromCmpRun => "msetcmpinfromcmprun"@,
        Operator::MSetCmpInFromCmpCntCheck => "msetcmpinfromcmpcntcheck"@,
        Operator::MSetCmpInFromMemory => "msetcmpinfrommemory"@,
        Operator::MSetCmpInFromMemoryCnt => "msetcmpinfrommemorycnt"@,
        Operator::MSetCmpInFromMemoryRun => "msetcmpinfrommemoryrun"@,
        Operator::MSetCmpInFromMemoryCntCheck => "msetcmpinfrommemorycntcheck"@,
        Operator::Call => "call"@,
        Operator::MCall => "mcall"@,
        Operator::Return => "return"@,
        Operator::MReturn => "mreturn"@,
        Operator::GetTemplateId => "gettemplateid"@,
        Operator::GetTemplateSignalPosition => "gettemplatesignalposition"@,
        Operator::GetTemplateSignalSize => "gettemplatesignalsize"@,
        Operator::GetTemplateSignalDim => "gettemplatesignaldim"@,
        Operator::GetTemplateSignalType => "gettemplatesignaltype"@,
        Operator::GetBusSignalPos => "getbussignalpos"@,
        Operator::GetBusSignalSize => "getbussignalsize"@,
        Operator::GetBusSignalDim => "getbussignaldim"@,
        Operator::GetBusSignalType => "getbussignaltype"@,
        Operator::Error => "error"@,
    }
}

pub fn operator_debug_name(op: &Operator) -> (r: &'static str)
    ensures
        r@ == debug_operator(*op),
{
    match op {
        Operator::Add => "add",
        Operator::Sub => "sub",
        Operator::Mul => "mul",
        Operator::Div => "div",
        Operator::Rem => "rem",
        Operator::IDiv => "idiv",
        Operator::Pow => "pow",
        Operator::Greater => "greater",
        Operator::GreaterEqual => "greaterequal",
        Operator::Less => "less",
        Operator::LessEqual => "lessequal",
        Operator::Equal => "equal",
        Operator::NotEqual => "notequal",
        Operator::EqualZero => "equalzero",
        Operator::And => "and",
        Operator::Or => "or",
        Operator::ShiftRight => "shiftright",
        Operator::ShiftLeft => "shiftleft",
        Operator::BitAnd => "bitand",
        Operator::BitOr => "bitor",
        Operator::BitXor => "bitxor",
        Operator::BitNot => "bitnot",
        Operator::Extend => "extend",
        Operator::Wrap => "wrap",
        Operator::Load => "load",
        Operator::Store => "store",
        Operator::MStore => "mstore",
        Operator::MStoreFromSignal => "mstorefromsignal",
        Operator::MStoreFromCmpSignal => "mstorefromcmpsignal",
        Operator::GetSignal => "getsignal",
        Operator::GetCmpSignal => "getcmpsignal",
        Operator::SetSignal => "setsignal",
        Operator::MSetSignal => "msetsignal",
        Operator::MSetSignalFromMemory => "msetsignalfrommemory",
        Operator::SetCmpIn => "setcmpin",
        Operator::SetCmpInCnt => "setcmpincnt",
        Operator::SetCmpInRun => "setcmpinrun",
        Operator::SetCmpInCntCheck => "setcmpincntcheck",
        Operator::MSetCmpIn => "msetcmpin",
        Operator::MSetCmpInCnt => "msetcmpincnt",
        Operator::MSetCmpInRun => "msetcmpinrun",
        Operator::MSetCmpInCntCheck => "msetcmpincntcheck",
        Operator::MSetCmpInFromCmp => "msetcmpinfromcmp",
        Operator::MSetCmpInFromCmpCnt => "msetcmpinfromcmpcnt",
        Operator::MSetCmpInFromCmpRun => "msetcmpinfromcmprun",
        Operator::MSetCmpInFromCmpCntCheck => "msetcmpinfromcmpcntcheck",
        Operator::MSetCmpInFromMemory => "msetcmpinfrommemory",
        Operator::MSetCmpInFromMemoryCnt => "msetcmpinfrommemorycnt",
        Operator::MSetCmpInFromMemoryRun => "msetcmpinfrommemoryrun",
        Operator::MSetCmpInFromMemoryCntCheck => "msetcmpinfrommemorycntcheck",
        Operator::Call => "call",
        Operator::MCall => "mcall",
        Operator::Return => "return",
        Operator::MReturn => "mreturn",
        Operator::GetTemplateId => "gettemplateid",
        Operator::GetTemplateSignalPosition => "gettemplatesignalposition",
        Operator::GetTemplateSignalSize => "gettemplatesignalsize",
        Operator::GetTemplateSignalDim => "gettemplatesignaldim",
        Operator::GetTemplateSignalType => "gettemplatesignaltype",
        Operator::GetBusSignalPos => "getbussignalpos",
        Operator::GetBusSignalSize => "getbussignalsize",
        Operator::GetBusSignalDim => "getbussignaldim",
        Operator::GetBusSignalType => "getbussignaltype",
        Operator::Error => "error",
    }
}

/// The base-2^64 digits of a natural number, least significant first, without
/// trailing zeros.
pub open spec fn digits64(n: nat) -> Seq<nat>
    decreases n,
{
    if n == 0 {
        Seq::empty()
    } else {
        seq![n % 18446744073709551616] + digits64(n / 18446744073709551616)
    }
}

pub open spec fn bigint_sign_name(v: int) -> Seq<char> {
    if v < 0 {
        "Minus"@
    } else if v == 0 {
        "NoSign"@
    } else {
        "Plus"@
    }
}

/// The debugging text of a big integer: its sign and its base-2^64 digits.
pub open spec fn bigint_debug(v: int) -> Seq<char> {
    let magnitude: nat = if v < 0 {
        (-v) as nat
    } else {
        v as nat
    };
    "BigInt { sign: "@ + bigint_sign_name(v) + ", data: BigUint { data: ["@ + joined(
        digits64(magnitude).map_values(|d: nat| decimal(d)),
        ", "@,
    ) + "] } }"@
}

/// The `{:?}` text of the `num-bigint-dig` `BigInt` made from the sign and the
/// base-2^32 limbs of `n` by `BigInt::new`: its sign (`NoSign` for zero) and the
/// base-2^64 digits of its magnitude (the crate's default digit size), least
/// significant first and without trailing zeros.
#[verifier::external_body]
fn bignum_debug(n: &BigNum) -> (r: String)
    ensures
        r@ == bigint_debug(n.value()),
{
    let sign = if n.negative { num_bigint_dig::Sign::Minus } else { num_bigint_dig::Sign::Plus };
    format!("{:?}", num_bigint_dig::BigInt::new(sign, n.limbs.clone()))
}

pub open spec fn constant_debug(c: SpecConstant) -> Seq<char> {
    match c {
        SpecConstant::I64(v) => "I64("@ + signed_decimal(v as int) + ")"@,
        SpecConstant::FF(negative, limbs) => "FF("@ + bigint_debug(ff_value(negative, limbs)) + ")"@,
    }
}

pub open spec fn atomic_debug(a: SpecAtomic) -> Seq<char> {
    match a {
        SpecAtomic::Constant(c) => "Constant("@ + constant_debug(c) + ")"@,
        SpecAtomic::Variable(v) => "Variable("@ + debug_string(v) + ")"@,
        SpecAtomic::Function(f) => "Function("@ + debug_string(f) + ")"@,
    }
}

pub open spec fn parameter_debug(p: SpecParameter) -> Seq<char> {
    match p {
        SpecParameter::Signal { index, size } => "Signal { index: "@ + atomic_debug(index) + ", size: "@
            + atomic_debug(size) + " }"@,
        SpecParameter::SubcmpSignal { component, index, size } => "SubcmpSignal { component: "@
            + atomic_debug(component) + ", index: "@ + atomic_debug(index) + ", size: "@ + atomic_debug(size)
            + " }"@,
        SpecParameter::I64Memory { index, size } => "I64Memory { index: "@ + atomic_debug(index)
            + ", size: "@ + atomic_debug(size) + " }"@,
        SpecParameter::FfMemory { index, size } => "FfMemory { index: "@ + atomic_debug(index)
            + ", size: "@ + atomic_debug(size) + " }"@,
    }
}

/// The debugging text of an operand, as its derived `Debug` writes it.
pub open spec fn expression_debug(e: SpecExpression) -> Seq<char> {
    match e {
        SpecExpression::Atomic(a) => "Atomic("@ + atomic_debug(a) + ")"@,
        SpecExpression::Parameter(p) => "Parameter("@ + parameter_debug(p) + ")"@,
    }
}

fn push_atomic_debug(s: &mut String, a: &Atomic)
    ensures
        final(s)@ == old(s)@ + atomic_debug(a@),
{
    let ghost start = s@;
    match a {
        Atomic::Constant(ConstantType::I64(v)) => {
            push_text(s, "Constant(");
            push_text(s, "I64(");
            push_signed_decimal(s, *v);
            push_text(s, ")");
            push_text(s, ")");
            proof {
                assert(s@ =~= start + atomic_debug(a@));
            }
        },
        Atomic::Constant(ConstantType::FF(b)) => {
            push_text(s, "Constant(");
            push_text(s, "FF(");
            let d = bignum_debug(b);
            push_text(s, d.as_str());
            push_text(s, ")");
            push_text(s, ")");
            proof {
                assert(b.value() == ff_value(b.negative, b.limbs@));
                assert(s@ =~= start + atomic_debug(a@));
            }
        },
        Atomic::Variable(v) => {
            push_text(s, "Variable(");
            push_debug_string(s, v.as_str());
            push_text(s, ")");
            proof {
                assert(s@ =~= start + atomic_debug(a@));
            }
        },
        Atomic::Function(f) => {
            push_text(s, "Function(");
            push_debug_string(s, f.as_str());
            push_text(s, ")");
            proof {
                assert(s@ =~= start + atomic_debug(a@));
            }
        },
    }
}

fn push_parameter_debug(s: &mut String, p: &Parameter)
    ensures
        final(s)@ == old(s)@ + parameter_debug(p@),
{
    let ghost start = s@;
    match p {
        Parameter::Signal { index, size } => {
            push_text(s, "Signal { index: ");
            push_atomic_debug(s, index);
            push_text(s, ", size: ");
            push_atomic_debug(s, size);
            push_text(s, " }");
            proof {
                assert(s@ =~= start + parameter_debug(p@));
            }
        },
        Parameter::SubcmpSignal { component, index, size } => {
            push_text(s, "SubcmpSignal { component: ");
            push_atomic_debug(s, component);
            push_text(s, ", index: ");
            push_atomic_debug(s, index);
            push_text(s, ", size: ");
            push_atomic_debug(s, size);
            push_text(s, " }");
            proof {
                assert(s@ =~= start + parameter_debug(p@));
            }
        },
        Parameter::I64Memory { index, size } => {
            push_text(s, "I64Memory { index: ");
            push_atomic_debug(s, index);
            push_text(s, ", size: ");
            push_atomic_debug(s, size);
            push_text(s, " }");
            proof {
                assert(s@ =~= start + parameter_debug(p@));
            }
        },
        Parameter::FfMemory { index, size } => {
            push_text(s, "FfMemory { index: ");
            push_atomic_debug(s, index);
            push_text(s, ", size: ");
            push_atomic_debug(s, size);
            push_text(s, " }");
            proof {
                assert(s@ =~= start + parameter_debug(p@));
            }
        },
    }
}

/// Appends the debugging text of an operand.
pub fn push_expression_debug(s: &mut String, e: &Expression)
    ensures
        final(s)@ == old(s)@ + expression_debug(e@),
{
    let ghost start = s@;
    match e {
        Expression::Atomic(a) => {
            push_text(s, "Atomic(");
            push_atomic_debug(s, a);
            push_text(s, ")");
            proof {
                assert(s@ =~= start + expression_debug(e@));
            }
        },
        Expression::Parameter(p) => {
            push_text(s, "Parameter(");
            push_parameter_debug(s, p);
            push_text(s, ")");
            proof {
                assert(s@ =~= start + expression_debug(e@));
            }
        },
    }
}

pub open spec fn type_debug(t: Option<NumericType>) -> Seq<char> {
    match t {
        Some(NumericType::Integer) => "i64."@,
        Some(NumericType::FiniteField) => "ff."@,
        None => Seq::empty(),
    }
}

/// Each operand's debugging text followed by a space.
pub open spec fn operands_debug(ops: Seq<SpecExpression>) -> Seq<char>
    decreases ops.len(),
{
    if ops.len() == 0 {
        Seq::empty()
    } else {
        operands_debug(ops.drop_last()) + expression_debug(ops.last()) + " "@
    }
}

/// The debugging text of a statement: `output = type.operator operand operand `.
pub open spec fn statement_debug(st: SpecStatement) -> Seq<char> {
    (match st.output {
        Some(o) => o + " = "@,
        None => Seq::empty(),
    }) + type_debug(st.num_type) + (match st.operator {
        Some(op) => debug_operator(op) + " "@,
        None => Seq::empty(),
    }) + operands_debug(st.operands)
}

pub fn statement_debug_text(stmt: &Statement) -> (r: String)
    ensures
        r@ == statement_debug(stmt@),
{
    let mut s = String::new();
    match &stmt.output {
        Some(o) => {
            push_text(&mut s, o.as_str());
            push_text(&mut s, " = ");
        },
        None => {},
    }
    match &stmt.num_type {
        Some(NumericType::Integer) => push_text(&mut s, "i64."),
        Some(NumericType::FiniteField) => push_text(&mut s, "ff."),
        None => {},
    }
    match &stmt.value.operator {
        Some(op) => {
            push_text(&mut s, operator_debug_name(op));
            push_text(&mut s, " ");
        },
        None => {},
    }
    let ghost head = s@;
    let ghost ops = stmt@.operands;
    proof {
        assert(head =~= (match stmt@.output {
            Some(o) => o + " = "@,
            None => Seq::empty(),
        }) + type_debug(stmt@.num_type) + (match stmt@.operator {
            Some(op) => debug_operator(op) + " "@,
            None => Seq::empty(),
        }));
        assert(ops.take(0) =~= Seq::<SpecExpression>::empty());
        assert(s@ =~= head + operands_debug(ops.take(0)));
    }
    let mut i: usize = 0;
    while i < stmt.value.operands.len()
        invariant
            i <= stmt.value.operands@.len(),
            ops == stmt@.operands,
            ops.len() == stmt.value.operands@.len(),
            s@ == head + operands_debug(ops.take(i as int)),
        decreases stmt.value.operands@.len() - i,
    {
        push_expression_debug(&mut s, &stmt.value.operands[i]);
        push_text(&mut s, " ");
        proof {
            let t = ops.take(i + 1);
            assert(t.drop_last() =~= ops.take(i as int));
            assert(t.last() == stmt.value.operands@[i as int]@);
            assert(s@ =~= head + operands_debug(t));
        }
        i = i + 1;
    }
    proof {
        assert(ops.take(ops.len() as int) =~= ops);
    }
    s
}

/// Each possibility of a φ-function as `variable (Bblock), `.
pub open spec fn possibilities_debug(ps: Seq<(Seq<char>, usize)>) -> Seq<char>
    decreases ps.len(),
{
    if ps.len() == 0 {
        Seq::empty()
    } else {
        possibilities_debug(ps.drop_last()) + ps.last().0 + " (B"@ + decimal(ps.last().1 as nat) + "), "@
    }
}

/// The debugging text of a φ-function: `output = φ variable (Bblock), ...`.
pub open spec fn phi_debug(p: SpecPhi) -> Seq<char> {
    p.output + " = φ "@ + possibilities_debug(p.possibilities)
}

pub fn phi_debug_text(phi: &PhiFunction) -> (r: String)
    ensures
        r@ == phi_debug(phi@),
{
    let mut s = String::new();
    push_text(&mut s, phi.output.as_str());
    push_text(&mut s, " = φ ");
    let ghost head = s@;
    let ghost ps = phi@.possibilities;
    proof {
        assert(ps.take(0) =~= Seq::<(Seq<char>, usize)>::empty());
        assert(s@ =~= head + possibilities_debug(ps.take(0)));
    }
    let mut i: usize = 0;
    while i < phi.possibilities.len()
        invariant
            i <= phi.possibilities@.len(),
            ps == phi@.possibilities,
            ps.len() == phi.possibilities@.len(),
            s@ == head + possibilities_debug(ps.take(i as int)),
        decreases phi.possibilities@.len() - i,
    {
        push_text(&mut s, phi.possibilities[i].variable.as_str());
        push_text(&mut s, " (B");
        push_decimal(&mut s, phi.possibilities[i].block as u64);
        push_text(&mut s, "), ");
        proof {
            let t = ps.take(i + 1);
            assert(t.drop_last() =~= ps.take(i as int));
            assert(t.last() == phi.possibilities@[i as int]@);
            assert(s@ =~= head + possibilities_debug(t));
        }
        i = i + 1;
    }
    proof {
        assert(ps.take(ps.len() as int) =~= ps);
        assert(s@ =~= phi_debug(phi@));
    }
    s
}

// ---------------------------------------------------------------------------
// The boxes and edges of a graph
// ---------------------------------------------------------------------------

/// The lines of a block's box: its number, the live-in names when `live`, its
/// φ-functions, its statements, and the live-out names when `live`.
pub open spec fn label_lines(b: BasicBlock, live: bool) -> Seq<Seq<char>> {
    seq!["Block "@ + decimal(b.id as nat)] + (if live {
        seq!["Live in: "@ + debug_names(names_view(b.live_in@))]
    } else {
        Seq::empty()
    }) + phis_view(b.phi_functions@).map_values(|p: SpecPhi| phi_debug(p)) + stmts_view(
        b.statements@,
    ).map_values(|st: SpecStatement| statement_debug(st)) + (if live {
        seq!["Live out: "@ + debug_names(names_view(b.live_out@))]
    } else {
        Seq::empty()
    })
}

/// With live sets shown, a block's box has the block's number first, its live-in
/// list second and its live-out list last; without them, no line names a live set
/// and the box holds the number, one line per φ-function and one per statement.
pub proof fn lemma_label_live_lines(b: BasicBlock, live: bool)
    ensures
        label_lines(b, live)[0] == "Block "@ + decimal(b.id as nat),
        live ==> label_lines(b, live).len() == 3 + b.phi_functions@.len() + b.statements@.len(),
        live ==> label_lines(b, live)[1] == "Live in: "@ + debug_names(names_view(b.live_in@)),
        live ==> label_lines(b, live).last() == "Live out: "@ + debug_names(names_view(b.live_out@)),
        !live ==> label_lines(b, live).len() == 1 + b.phi_functions@.len() + b.statements@.len(),
{
}

fn push_line(lines: &mut Vec<String>, t: String)
    ensures
        names_view(final(lines)@) == names_view(old(lines)@).push(t@),
{
    lines.push(t);
    proof {
        assert(names_view(lines@) =~= names_view(old(lines)@).push(t@));
    }
}

#[verifier::rlimit(40)]
#[verifier::spinoff_prover]
fn label_lines_of(b: &BasicBlock, live: bool) -> (lines: Vec<String>)
    ensures
        names_view(lines@) == label_lines(*b, live),
        live ==> lines@.len() >= 3 && lines@[1]@ == "Live in: "@ + debug_names(names_view(b.live_in@))
            && lines@.last()@ == "Live out: "@ + debug_names(names_view(b.live_out@)),
{
    let mut lines: Vec<String> = Vec::new();
    let mut head = String::new();
    push_text(&mut head, "Block ");
    push_decimal(&mut head, b.id as u64);
    push_line(&mut lines, head);
    if live {
        let mut l = String::new();
        push_text(&mut l, "Live in: ");
        push_debug_names(&mut l, &b.live_in);
        push_line(&mut lines, l);
    }
    let ghost prefix = names_view(lines@);
    let ghost pv = phis_view(b.phi_functions@).map_values(|p: SpecPhi| phi_debug(p));
    let mut i: usize = 0;
    proof {
        assert(prefix + pv.take(0) =~= prefix);
    }
    while i < b.phi_functions.len()
        invariant
            i <= b.phi_functions@.len(),
            pv == phis_view(b.phi_functions@).map_values(|p: SpecPhi| phi_debug(p)),
            names_view(lines@) == prefix + pv.take(i as int),
        decreases b.phi_functions@.len() - i,
    {
        let t = phi_debug_text(&b.phi_functions[i]);
        push_line(&mut lines, t);
        proof {
            assert(pv.take(i + 1) =~= pv.take(i as int).push(pv[i as int]));
        }
        i = i + 1;
    }
    let ghost prefix2 = names_view(lines@);
    let ghost sv = stmts_view(b.statements@).map_values(|st: SpecStatement| statement_debug(st));
    proof {
        assert(pv.take(pv.len() as int) =~= pv);
        assert(prefix2 + sv.take(0) =~= prefix2);
    }
    let mut j: usize = 0;
    while j < b.statements.len()
        invariant
            j <= b.statements@.len(),
            sv == stmts_view(b.statements@).map_values(|st: SpecStatement| statement_debug(st)),
            names_view(lines@) == prefix2 + sv.take(j as int),
        decreases b.statements@.len() - j,
    {
        let t = statement_debug_text(&b.statements[j]);
        push_line(&mut lines, t);
        proof {
            assert(sv.take(j + 1) =~= sv.take(j as int).push(sv[j as int]));
        }
        j = j + 1;
    }
    proof {
        assert(sv.take(sv.len() as int) =~= sv);
    }
    if live {
        let mut l = String::new();
        push_text(&mut l, "Live out: ");
        push_debug_names(&mut l, &b.live_out);
        push_line(&mut lines, l);
    }
    proof {
        assert(names_view(lines@) =~= label_lines(*b, live));
        lemma_label_live_lines(*b, live);
        if live {
            assert(names_view(lines@)[1] == lines@[1]@);
            assert(names_view(lines@)[lines@.len() - 1] == lines@[lines@.len() - 1]@);
        }
    }
    lines
}

/// The edges that leave a block: one to its unconditional successor, or one to
/// each branch of a conditional successor, labelled with the condition.
pub open spec fn edges_text(b: BasicBlock) -> Seq<char> {
    match opt_succ(b.successors) {
        None => Seq::empty(),
        Some(SpecSuccessor::Unconditional { to }) => "  "@ + decimal(b.id as nat) + " -> "@ + decimal(
            to as nat,
        ) + ";\n"@,
        Some(SpecSuccessor::Conditional { condition, to_then, to_else, .. }) => {
            let c = quote_escaped(expression_debug(condition));
            "  "@ + decimal(b.id as nat) + " -> "@ + decimal(to_then as nat) + " [label=\""@ + c
                + " != 0\"];\n"@ + "  "@ + decimal(b.id as nat) + " -> "@ + decimal(to_else as nat)
                + " [label=\""@ + c + " == 0\"];\n"@
        },
    }
}

/// A block's box followed by the edges that leave it.
pub open spec fn node_text(b: BasicBlock, live: bool) -> Seq<char> {
    "  "@ + decimal(b.id as nat) + " [label=\""@ + quote_escaped(joined(label_lines(b, live), "\n"@))
        + "\", shape=box];\n"@ + edges_text(b)
}

pub open spec fn nodes_text(bs: Seq<BasicBlock>, live: bool) -> Seq<char>
    decreases bs.len(),
{
    if bs.len() == 0 {
        Seq::empty()
    } else {
        nodes_text(bs.drop_last(), live) + node_text(bs.last(), live)
    }
}

fn push_branch_edges(s: &mut String, id: usize, condition: &Expression, to_then: usize, to_else: usize)
    ensures
        final(s)@ == old(s)@ + ({
            let c = quote_escaped(expression_debug(condition@));
            "  "@ + decimal(id as nat) + " -> "@ + decimal(to_then as nat) + " [label=\""@ + c
                + " != 0\"];\n"@ + "  "@ + decimal(id as nat) + " -> "@ + decimal(to_else as nat)
                + " [label=\""@ + c + " == 0\"];\n"@
        }),
{
    let ghost start = s@;
    let mut raw = String::new();
    push_expression_debug(&mut raw, condition);
    let mut c = String::new();
    push_quote_escaped(&mut c, raw.as_str());
    proof {
        assert(raw@ =~= expression_debug(condition@));
        assert(c@ =~= quote_escaped(expression_debug(condition@)));
    }
    push_text(s, "  ");
    push_decimal(s, id as u64);
    push_text(s, " -> ");
    push_decimal(s, to_then as u64);
    push_text(s, " [label=\"");
    push_text(s, c.as_str());
    push_text(s, " != 0\"];\n");
    push_text(s, "  ");
    push_decimal(s, id as u64);
    push_text(s, " -> ");
    push_decimal(s, to_else as u64);
    push_text(s, " [label=\"");
    push_text(s, c.as_str());
    push_text(s, " == 0\"];\n");
    proof {
        let cc = quote_escaped(expression_debug(condition@));
        assert(s@ =~= start + ("  "@ + decimal(id as nat) + " -> "@ + decimal(to_then as nat) + " [label=\""@ + cc
            + " != 0\"];\n"@ + "  "@ + decimal(id as nat) + " -> "@ + decimal(to_else as nat) + " [label=\""@ + cc
            + " == 0\"];\n"@));
    }
}

fn push_edges(s: &mut String, b: &BasicBlock)
    ensures
        final(s)@ == old(s)@ + edges_text(*b),
{
    let ghost start = s@;
    match &b.successors {
        None => {
            proof {
                assert(s@ =~= start + edges_text(*b));
            }
        },
        Some(Successor::Unconditional { to }) => {
            push_text(s, "  ");
            push_decimal(s, b.id as u64);
            push_text(s, " -> ");
            push_decimal(s, *to as u64);
            push_text(s, ";\n");
            proof {
                assert(s@ =~= start + edges_text(*b));
            }
        },
        Some(Successor::Conditional { condition, to_then, to_else, .. }) => {
            push_branch_edges(s, b.id, condition, *to_then, *to_else);
        },
    }
}

fn push_node(s: &mut String, b: &BasicBlock, live: bool)
    ensures
        final(s)@ == old(s)@ + node_text(*b, live),
{
    let ghost start = s@;
    let lines = label_lines_of(b, live);
    let mut raw = String::new();
    push_joined(&mut raw, &lines, "\n");
    push_text(s, "  ");
    push_decimal(s, b.id as u64);
    push_text(s, " [label=\"");
    push_quote_escaped(s, raw.as_str());
    push_text(s, "\", shape=box];\n");
    push_edges(s, b);
    proof {
        assert(raw@ =~= joined(label_lines(*b, live), "\n"@));
        assert(s@ =~= start + node_text(*b, live));
    }
}

fn push_nodes(s: &mut String, blocks: &Vec<BasicBlock>, live: bool)
    ensures
        final(s)@ == old(s)@ + nodes_text(blocks@, live),
{
    let ghost start = s@;
    let mut i: usize = 0;
    proof {
        assert(blocks@.take(0) =~= Seq::<BasicBlock>::empty());
        assert(s@ =~= start + nodes_text(blocks@.take(0), live));
    }
    while i < blocks.len()
        invariant
            i <= blocks@.len(),
            s@ == start + nodes_text(blocks@.take(i as int), live),
        decreases blocks@.len() - i,
    {
        push_node(s, &blocks[i], live);
        proof {
            let t = blocks@.take(i + 1);
            assert(t.drop_last() =~= blocks@.take(i as int));
            assert(t.last() == blocks@[i as int]);
            assert(s@ =~= start + nodes_text(t, live));
        }
        i = i + 1;
    }
    proof {
        assert(blocks@.take(blocks@.len() as int) =~= blocks@);
    }
}

/// Where a use lies: `block:line(φ)` for a φ-function, `block:position` for a
/// statement counted after the block's φ-functions, and `block:c` for a branch condition.
pub open spec fn use_debug(u: Use, blocks: Seq<BasicBlock>) -> Seq<char> {
    match u {
        Use::InInstruction(bid, inst) => if inst.is_phi {
            decimal(bid as nat) + ":"@ + decimal(inst.line as nat) + "(φ)"@
        } else {
            decimal(bid as nat) + ":"@ + decimal((inst.line + blocks[bid as int].phi_functions@.len()) as nat)
        },
        Use::InCondition(bid) => decimal(bid as nat) + ":c"@,
    }
}

pub open spec fn chain_line(var: Seq<char>, uses: Seq<Use>, blocks: Seq<BasicBlock>) -> Seq<char> {
    var + " → "@ + joined(uses.map_values(|u: Use| use_debug(u, blocks)), ", "@)
}

/// The lines of the box of def-use chains: a title, then one line per variable
/// that is read, in the order of the names.
pub open spec fn du_lines(cfg: CFG) -> Seq<Seq<char>> {
    seq!["Def-Use Chains"@] + cfg.def_use.entries@.map_values(
        |e: (String, ItemSet<Use>)| chain_line(e.0@, e.1.items@, cfg.blocks@),
    )
}

pub open spec fn definition_line(var: Seq<char>, d: (usize, LineInstruction)) -> Seq<char> {
    var + " → "@ + decimal(d.0 as nat) + ":"@ + decimal(d.1.line as nat) + if d.1.is_phi {
        "(φ)"@
    } else {
        Seq::empty()
    }
}

/// The lines of the box of definitions: a title, then one line per defined
/// variable, in the order of the names.
pub open spec fn def_lines(cfg: CFG) -> Seq<Seq<char>> {
    seq!["Definitions"@] + cfg.definitions.entries@.map_values(
        |e: (String, (usize, LineInstruction))| definition_line(e.0@, e.1),
    )
}

/// The boxes of def-use chains and of definitions, with left-justified lines.
pub open spec fn boxes_text(cfg: CFG) -> Seq<char> {
    "  DU [shape=box, label=\""@ + quote_escaped(joined(du_lines(cfg), "\\l"@)) + "\\l"@ + "\"];\n"@
        + "  DEF [shape=box, label=\""@ + quote_escaped(joined(def_lines(cfg), "\\l"@)) + "\\l"@
        + "\"];\n"@
}

/// The Graphviz text of a graph in SSA form, with live sets and def-use boxes.
pub open spec fn dot_text(cfg: CFG, id: usize) -> Seq<char> {
    "digraph G"@ + decimal(id as nat) + " {\n"@ + nodes_text(cfg.blocks@, true) + boxes_text(cfg) + "}\n"@
}

/// The Graphviz text of a graph with its instructions only.
pub open spec fn dot_destruction_text(cfg: CFG, id: usize) -> Seq<char> {
    "digraph G"@ + decimal(id as nat) + " {\n"@ + nodes_text(cfg.blocks@, false) + "}\n"@
}

fn use_text(u: Use, blocks: &Vec<BasicBlock>) -> (r: String)
    requires
        use_block(u) < blocks@.len(),
    ensures
        r@ == use_debug(u, blocks@),
{
    let mut s = String::new();
    match u {
        Use::InInstruction(bid, inst) => {
            push_decimal(&mut s, bid as u64);
            push_text(&mut s, ":");
            if inst.is_phi {
                push_decimal(&mut s, inst.line as u64);
                push_text(&mut s, "(φ)");
            } else {
                let total: u128 = (inst.line as u128) + (blocks[bid].phi_functions.len() as u128);
                push_decimal_wide(&mut s, total);
            }
        },
        Use::InCondition(bid) => {
            push_decimal(&mut s, bid as u64);
            push_text(&mut s, ":c");
        },
    }
    proof {
        assert(s@ =~= use_debug(u, blocks@));
    }
    s
}

fn chain_line_text(var: &String, uses: &ItemSet<Use>, blocks: &Vec<BasicBlock>) -> (r: String)
    requires
        forall|j: int| 0 <= j < uses.items@.len() ==> use_block(#[trigger] uses.items@[j]) < blocks@.len(),
    ensures
        r@ == chain_line(var@, uses.items@, blocks@),
{
    let ghost target = uses.items@.map_values(|u: Use| use_debug(u, blocks@));
    let mut parts: Vec<String> = Vec::new();
    let mut j: usize = 0;
    while j < uses.items.len()
        invariant
            j <= uses.items@.len(),
            forall|q: int| 0 <= q < uses.items@.len() ==> use_block(#[trigger] uses.items@[q]) < blocks@.len(),
            target == uses.items@.map_values(|u: Use| use_debug(u, blocks@)),
            names_view(parts@) == target.take(j as int),
        decreases uses.items@.len() - j,
    {
        let t = use_text(uses.items[j], blocks);
        push_line(&mut parts, t);
        proof {
            assert(target.take(j + 1) =~= target.take(j as int).push(target[j as int]));
        }
        j = j + 1;
    }
    proof {
        assert(target.take(target.len() as int) =~= target);
    }
    let mut s = String::new();
    push_text(&mut s, var.as_str());
    push_text(&mut s, " → ");
    push_joined(&mut s, &parts, ", ");
    proof {
        assert(s@ =~= chain_line(var@, uses.items@, blocks@));
    }
    s
}

fn definition_line_text(var: &String, d: (usize, LineInstruction)) -> (r: String)
    ensures
        r@ == definition_line(var@, d),
{
    let mut s = String::new();
    push_text(&mut s, var.as_str());
    push_text(&mut s, " → ");
    push_decimal(&mut s, d.0 as u64);
    push_text(&mut s, ":");
    push_decimal(&mut s, d.1.line as u64);
    if d.1.is_phi {
        push_text(&mut s, "(φ)");
    }
    proof {
        assert(s@ =~= definition_line(var@, d));
    }
    s
}

fn push_boxes(s: &mut String, cfg: &CFG)
    requires
        cfg.wf(),
    ensures
        final(s)@ == old(s)@ + boxes_text(*cfg),
{
    let ghost start = s@;
    let mut du: Vec<String> = Vec::new();
    let mut title = String::new();
    push_text(&mut title, "Def-Use Chains");
    push_line(&mut du, title);
    let ghost dv = cfg.def_use.entries@.map_values(
        |e: (String, ItemSet<Use>)| chain_line(e.0@, e.1.items@, cfg.blocks@),
    );
    let mut i: usize = 0;
    proof {
        assert(seq!["Def-Use Chains"@] + dv.take(0) =~= seq!["Def-Use Chains"@]);
    }
    while i < cfg.def_use.entries.len()
        invariant
            cfg.wf(),
            i <= cfg.def_use.entries@.len(),
            dv == cfg.def_use.entries@.map_values(
                |e: (String, ItemSet<Use>)| chain_line(e.0@, e.1.items@, cfg.blocks@),
            ),
            names_view(du@) == seq!["Def-Use Chains"@] + dv.take(i as int),
        decreases cfg.def_use.entries@.len() - i,
    {
        proof {
            crate::collections::lemma_seq_map_entry(cfg.def_use.entries@, i as int);
            let k = cfg.def_use.entries@[i as int].0@;
            assert(cfg.uses_ok(k));
            assert forall|j: int| 0 <= j < cfg.def_use.entries@[i as int].1.items@.len() implies
                use_block(#[trigger] cfg.def_use.entries@[i as int].1.items@[j]) < cfg.blocks@.len() by {
                assert(cfg.def_use@[k]@.contains(cfg.def_use.entries@[i as int].1.items@[j]));
            }
        }
        let t = chain_line_text(&cfg.def_use.entries[i].0, &cfg.def_use.entries[i].1, &cfg.blocks);
        push_line(&mut du, t);
        proof {
            assert(dv.take(i + 1) =~= dv.take(i as int).push(dv[i as int]));
            assert(seq!["Def-Use Chains"@] + dv.take(i + 1) =~= (seq!["Def-Use Chains"@] + dv.take(i as int)).push(dv[i as int]));
        }
        i = i + 1;
    }
    proof {
        assert(dv.take(dv.len() as int) =~= dv);
        assert(names_view(du@) =~= du_lines(*cfg));
    }
    let mut du_raw = String::new();
    push_joined(&mut du_raw, &du, "\\l");
    push_text(s, "  DU [shape=box, label=\"");
    push_quote_escaped(s, du_raw.as_str());
    push_text(s, "\\l");
    push_text(s, "\"];\n");
    let ghost mid = s@;
    proof {
        assert(du_raw@ =~= joined(du_lines(*cfg), "\\l"@));
    }
    let mut defs: Vec<String> = Vec::new();
    let mut title = String::new();
    push_text(&mut title, "Definitions");
    push_line(&mut defs, title);
    let ghost fv = cfg.definitions.entries@.map_values(
        |e: (String, (usize, LineInstruction))| definition_line(e.0@, e.1),
    );
    let mut k: usize = 0;
    proof {
        assert(seq!["Definitions"@] + fv.take(0) =~= seq!["Definitions"@]);
    }
    while k < cfg.definitions.entries.len()
        invariant
            k <= cfg.definitions.entries@.len(),
            fv == cfg.definitions.entries@.map_values(
                |e: (String, (usize, LineInstruction))| definition_line(e.0@, e.1),
            ),
            names_view(defs@) == seq!["Definitions"@] + fv.take(k as int),
        decreases cfg.definitions.entries@.len() - k,
    {
        let t = definition_line_text(&cfg.definitions.entries[k].0, cfg.definitions.entries[k].1);
        push_line(&mut defs, t);
        proof {
            assert(fv.take(k + 1) =~= fv.take(k as int).push(fv[k as int]));
            assert(seq!["Definitions"@] + fv.take(k + 1) =~= (seq!["Definitions"@] + fv.take(k as int)).push(fv[k as int]));
        }
        k = k + 1;
    }
    proof {
        assert(fv.take(fv.len() as int) =~= fv);
        assert(names_view(defs@) =~= def_lines(*cfg));
    }
    let mut def_raw = String::new();
    push_joined(&mut def_raw, &defs, "\\l");
    push_text(s, "  DEF [shape=box, label=\"");
    push_quote_escaped(s, def_raw.as_str());
    push_text(s, "\\l");
    push_text(s, "\"];\n");
    proof {
        assert(def_raw@ =~= joined(def_lines(*cfg), "\\l"@));
        assert(s@ =~= start + boxes_text(*cfg));
    }
}

impl CFG {
    /// The Graphviz text of the graph, named `G` followed by `id`: a box per block
    /// with its number, live sets, φ-functions and statements, the edges to its
    /// successors, and boxes with the def-use chains and the definitions.
    pub fn to_dot(&self, id: usize) -> (r: String)
        requires
            self.wf(),
        ensures
            r@ == dot_text(*self, id),
    {
        let mut dot = String::new();
        push_text(&mut dot, "digraph G");
        push_decimal(&mut dot, id as u64);
        push_text(&mut dot, " {\n");
        push_nodes(&mut dot, &self.blocks, true);
        push_boxes(&mut dot, self);
        push_text(&mut dot, "}\n");
        proof {
            assert(dot@ =~= dot_text(*self, id));
        }
        dot
    }

    /// The Graphviz text of the graph, named `G` followed by `id`: a box per block
    /// with its number, φ-functions and statements, and the edges to its successors.
    pub fn to_dot_destruction(&self, id: usize) -> (r: String)
        ensures
            r@ == dot_destruction_text(*self, id),
    {
        let mut dot = String::new();
        push_text(&mut dot, "digraph G");
        push_decimal(&mut dot, id as u64);
        push_text(&mut dot, " {\n");
        push_nodes(&mut dot, &self.blocks, false);
        push_text(&mut dot, "}\n");
        proof {
            assert(dot@ =~= dot_destruction_text(*self, id));
        }
        dot
    }
}

} // verus!
