//! The values that CVM instructions operate on: numeric types, operators,
//! constants, atomics, parameters and expressions, with their mathematical views.

use vstd::prelude::*;

use crate::text::{owned, same_text};

verus! {

/// The two register banks of the CVM.
#[derive(Clone, Copy, Debug, PartialEq, Eq, Structural)]
pub enum NumericType {
    Integer,
    FiniteField,
}

/// The operators of CVM instructions.
#[derive(Clone, Copy, Debug, PartialEq, Eq, Structural)]
pub enum Operator {
    Add,
    Sub,
    Mul,
    Div,
    Rem,
    IDiv,
    Pow,
    Greater,
    GreaterEqual,
    Less,
    LessEqual,
    Equal,
    NotEqual,
    EqualZero,
    And,
    Or,
    ShiftRight,
    ShiftLeft,
    BitAnd,
    BitOr,
    BitXor,
    BitNot,
    Extend,
    Wrap,
    Load,
    Store,
    MStore,
    MStoreFromSignal,
    MStoreFromCmpSignal,
    GetSignal,
    GetCmpSignal,
    SetSignal,
    MSetSignal,
    MSetSignalFromMemory,
    SetCmpIn,
    SetCmpInCnt,
    SetCmpInRun,
    SetCmpInCntCheck,
    MSetCmpIn,
    MSetCmpInCnt,
    MSetCmpInRun,
    MSetCmpInCntCheck,
    MSetCmpInFromCmp,
    MSetCmpInFromCmpCnt,
    MSetCmpInFromCmpRun,
    MSetCmpInFromCmpCntCheck,
    MSetCmpInFromMemory,
    MSetCmpInFromMemoryCnt,
    MSetCmpInFromMemoryRun,
    MSetCmpInFromMemoryCntCheck,
    Call,
    MCall,
    Return,
    MReturn,
    GetTemplateId,
    GetTemplateSignalPosition,
    GetTemplateSignalSize,
    GetTemplateSignalDim,
    GetTemplateSignalType,
    GetBusSignalPos,
    GetBusSignalSize,
    GetBusSignalDim,
    GetBusSignalType,
    Error,
}

/// An arbitrary precision integer: a sign and its magnitude in little-endian
/// base 2^32 limbs.
#[derive(Clone, Debug)]
pub struct BigNum {
    pub negative: bool,
    pub limbs: Vec<u32>,
}

/// The value of little-endian base 2^32 limbs.
pub open spec fn limbs_value(limbs: Seq<u32>) -> nat
    decreases limbs.len(),
{
    if limbs.len() == 0 {
        0
    } else {
        limbs[0] as nat + 4294967296 * limbs_value(limbs.drop_first())
    }
}

impl View for BigNum {
    type V = (bool, Seq<u32>);

    open spec fn view(&self) -> (bool, Seq<u32>) {
        (self.negative, self.limbs@)
    }
}

impl BigNum {
    /// The integer that the number stands for.
    pub open spec fn value(self) -> int {
        if self.negative {
            -(limbs_value(self.limbs@) as int)
        } else {
            limbs_value(self.limbs@) as int
        }
    }

    pub fn duplicate(&self) -> (r: BigNum)
        ensures
            r@ == self@,
    {
        let mut limbs: Vec<u32> = Vec::new();
        let mut i: usize = 0;
        while i < self.limbs.len()
            invariant
                i <= self.limbs@.len(),
                limbs@ == self.limbs@.take(i as int),
            decreases self.limbs@.len() - i,
        {
            limbs.push(self.limbs[i]);
            i = i + 1;
            proof {
                assert(limbs@ =~= self.limbs@.take(i as int));
            }
        }
        proof {
            assert(limbs@ =~= self.limbs@);
        }
        BigNum { negative: self.negative, limbs }
    }
}

/// A constant of one of the two numeric types.
#[derive(Clone, Debug)]
pub enum ConstantType {
    I64(i64),
    FF(BigNum),
}

pub enum SpecConstant {
    I64(i64),
    FF(bool, Seq<u32>),
}

impl View for ConstantType {
    type V = SpecConstant;

    open spec fn view(&self) -> SpecConstant {
        match self {
            ConstantType::I64(v) => SpecConstant::I64(*v),
            ConstantType::FF(b) => SpecConstant::FF(b.negative, b.limbs@),
        }
    }
}

/// An operand that is a single value: a constant, a variable or a function name.
#[derive(Clone, Debug)]
pub enum Atomic {
    Constant(ConstantType),
    Variable(String),
    Function(String),
}

pub enum SpecAtomic {
    Constant(SpecConstant),
    Variable(Seq<char>),
    Function(Seq<char>),
}

impl View for Atomic {
    type V = SpecAtomic;

    open spec fn view(&self) -> SpecAtomic {
        match self {
            Atomic::Constant(c) => SpecAtomic::Constant(c@),
            Atomic::Variable(v) => SpecAtomic::Variable(v@),
            Atomic::Function(f) => SpecAtomic::Function(f@),
        }
    }
}

/// An operand that addresses signals or memory.
#[derive(Clone, Debug)]
pub enum Parameter {
    Signal { index: Atomic, size: Atomic },
    SubcmpSignal { component: Atomic, index: Atomic, size: Atomic },
    I64Memory { index: Atomic, size: Atomic },
    FfMemory { index: Atomic, size: Atomic },
}

pub enum SpecParameter {
    Signal { index: SpecAtomic, size: SpecAtomic },
    SubcmpSignal { component: SpecAtomic, index: SpecAtomic, size: SpecAtomic },
    I64Memory { index: SpecAtomic, size: SpecAtomic },
    FfMemory { index: SpecAtomic, size: SpecAtomic },
}

impl View for Parameter {
    type V = SpecParameter;

    open spec fn view(&self) -> SpecParameter {
        match self {
            Parameter::Signal { index, size } => SpecParameter::Signal { index: index@, size: size@ },
            Parameter::SubcmpSignal { component, index, size } => SpecParameter::SubcmpSignal {
                component: component@,
                index: index@,
                size: size@,
            },
            Parameter::I64Memory { index, size } => SpecParameter::I64Memory {
                index: index@,
                size: size@,
            },
            Parameter::FfMemory { index, size } => SpecParameter::FfMemory {
                index: index@,
                size: size@,
            },
        }
    }
}

/// An operand of an instruction.
#[derive(Clone, Debug)]
pub enum Expression {
    Atomic(Atomic),
    Parameter(Parameter),
}

pub enum SpecExpression {
    Atomic(SpecAtomic),
    Parameter(SpecParameter),
}

impl View for Expression {
    type V = SpecExpression;

    open spec fn view(&self) -> SpecExpression {
        match self {
            Expression::Atomic(a) => SpecExpression::Atomic(a@),
            Expression::Parameter(p) => SpecExpression::Parameter(p@),
        }
    }
}

// ---------------------------------------------------------------------------
// Variables occurring in operands
// ---------------------------------------------------------------------------

/// The variable named by an atomic, if it is one.
pub open spec fn atomic_vars(a: SpecAtomic) -> Seq<Seq<char>> {
    match a {
        SpecAtomic::Variable(v) => seq![v],
        _ => Seq::empty(),
    }
}

/// The variables of a parameter, in the order of its fields.
pub open spec fn parameter_vars(p: SpecParameter) -> Seq<Seq<char>> {
    match p {
        SpecParameter::Signal { index, size } => atomic_vars(index) + atomic_vars(size),
        SpecParameter::SubcmpSignal { component, index, size } => atomic_vars(component)
            + atomic_vars(index) + atomic_vars(size),
        SpecParameter::I64Memory { index, size } => atomic_vars(index) + atomic_vars(size),
        SpecParameter::FfMemory { index, size } => atomic_vars(index) + atomic_vars(size),
    }
}

/// The variables that an expression reads, in order of occurrence.
pub open spec fn expr_vars(e: SpecExpression) -> Seq<Seq<char>> {
    match e {
        SpecExpression::Atomic(a) => atomic_vars(a),
        SpecExpression::Parameter(p) => parameter_vars(p),
    }
}

// ---------------------------------------------------------------------------
// Renaming variables
// ---------------------------------------------------------------------------

/// An atomic in which every variable for which `f` is defined is renamed to `f`'s value.
pub open spec fn rename_atomic(a: SpecAtomic, f: Map<Seq<char>, Seq<char>>) -> SpecAtomic {
    match a {
        SpecAtomic::Variable(v) => if f.contains_key(v) {
            SpecAtomic::Variable(f[v])
        } else {
            a
        },
        _ => a,
    }
}

pub open spec fn rename_parameter(p: SpecParameter, f: Map<Seq<char>, Seq<char>>) -> SpecParameter {
    match p {
        SpecParameter::Signal { index, size } => SpecParameter::Signal {
            index: rename_atomic(index, f),
            size: rename_atomic(size, f),
        },
        SpecParameter::SubcmpSignal { component, index, size } => SpecParameter::SubcmpSignal {
            component: rename_atomic(component, f),
            index: rename_atomic(index, f),
            size: rename_atomic(size, f),
        },
        SpecParameter::I64Memory { index, size } => SpecParameter::I64Memory {
            index: rename_atomic(index, f),
            size: rename_atomic(size, f),
        },
        SpecParameter::FfMemory { index, size } => SpecParameter::FfMemory {
            index: rename_atomic(index, f),
            size: rename_atomic(size, f),
        },
    }
}

/// An expression in which every variable for which `f` is defined is renamed to `f`'s value.
pub open spec fn rename_expr(e: SpecExpression, f: Map<Seq<char>, Seq<char>>) -> SpecExpression {
    match e {
        SpecExpression::Atomic(a) => SpecExpression::Atomic(rename_atomic(a, f)),
        SpecExpression::Parameter(p) => SpecExpression::Parameter(rename_parameter(p, f)),
    }
}

/// The renaming that sends `target` to `replacement` and leaves every other name alone.
pub open spec fn single_renaming(target: Seq<char>, replacement: Seq<char>) -> Map<
    Seq<char>,
    Seq<char>,
> {
    map![target => replacement]
}

// ---------------------------------------------------------------------------
// Executable operations
// ---------------------------------------------------------------------------

impl ConstantType {
    pub fn duplicate(&self) -> (r: ConstantType)
        ensures
            r@ == self@,
    {
        match self {
            ConstantType::I64(v) => ConstantType::I64(*v),
            ConstantType::FF(b) => ConstantType::FF(b.duplicate()),
        }
    }
}

impl Atomic {
    pub fn duplicate(&self) -> (r: Atomic)
        ensures
            r@ == self@,
    {
        match self {
            Atomic::Constant(c) => Atomic::Constant(c.duplicate()),
            Atomic::Variable(v) => Atomic::Variable(v.clone()),
            Atomic::Function(f) => Atomic::Function(f.clone()),
        }
    }
}

impl Parameter {
    pub fn duplicate(&self) -> (r: Parameter)
        ensures
            r@ == self@,
    {
        match self {
            Parameter::Signal { index, size } => Parameter::Signal {
                index: index.duplicate(),
                size: size.duplicate(),
            },
            Parameter::SubcmpSignal { component, index, size } => Parameter::SubcmpSignal {
                component: component.duplicate(),
                index: index.duplicate(),
                size: size.duplicate(),
            },
            Parameter::I64Memory { index, size } => Parameter::I64Memory {
                index: index.duplicate(),
                size: size.duplicate(),
            },
            Parameter::FfMemory { index, size } => Parameter::FfMemory {
                index: index.duplicate(),
                size: size.duplicate(),
            },
        }
    }
}

impl Expression {
    pub fn duplicate(&self) -> (r: Expression)
        ensures
            r@ == self@,
    {
        match self {
            Expression::Atomic(a) => Expression::Atomic(a.duplicate()),
            Expression::Parameter(p) => Expression::Parameter(p.duplicate()),
        }
    }
}

fn atomic_variable_names(a: &Atomic, out: &mut Vec<String>)
    ensures
        final(out)@.map_values(|s: String| s@) == old(out)@.map_values(|s: String| s@)
            + atomic_vars(a@),
{
    if let Atomic::Variable(v) = a {
        out.push(v.clone());
    }
    proof {
        assert(final(out)@.map_values(|s: String| s@) =~= old(out)@.map_values(|s: String| s@)
            + atomic_vars(a@));
    }
}

/// The names of the variables that an expression reads, in order of occurrence.
pub fn get_variable_names(e: &Expression) -> (r: Vec<String>)
    ensures
        r@.map_values(|s: String| s@) == expr_vars(e@),
{
    let mut out: Vec<String> = Vec::new();
    proof {
        assert(out@.map_values(|s: String| s@) =~= Seq::<Seq<char>>::empty());
    }
    match e {
        Expression::Atomic(a) => {
            atomic_variable_names(a, &mut out);
            proof {
                assert(Seq::<Seq<char>>::empty() + atomic_vars(a@) =~= atomic_vars(a@));
            }
        },
        Expression::Parameter(p) => {
            match p {
                Parameter::Signal { index, size }
                | Parameter::I64Memory { index, size }
                | Parameter::FfMemory { index, size } => {
                    atomic_variable_names(index, &mut out);
                    atomic_variable_names(size, &mut out);
                    proof {
                        assert(Seq::<Seq<char>>::empty() + atomic_vars(index@) + atomic_vars(
                            size@,
                        ) =~= atomic_vars(index@) + atomic_vars(size@));
                    }
                },
                Parameter::SubcmpSignal { component, index, size } => {
                    atomic_variable_names(component, &mut out);
                    atomic_variable_names(index, &mut out);
                    atomic_variable_names(size, &mut out);
                    proof {
                        assert(Seq::<Seq<char>>::empty() + atomic_vars(component@) + atomic_vars(
                            index@,
                        ) + atomic_vars(size@) =~= atomic_vars(component@) + atomic_vars(index@)
                            + atomic_vars(size@));
                    }
                },
            }
        },
    }
    out
}

fn replace_in_atomic(a: &mut Atomic, target: &str, replacement: &str)
    ensures
        final(a)@ == rename_atomic(old(a)@, single_renaming(target@, replacement@)),
{
    if let Atomic::Variable(v) = a {
        if same_text(v, target) {
            *v = owned(replacement);
        }
    }
}

/// Replaces every occurrence of the variable `target` in `expr` by `replacement`.
pub fn replace_variable_in_expression(expr: &mut Expression, target: &str, replacement: &str)
    ensures
        final(expr)@ == rename_expr(old(expr)@, single_renaming(target@, replacement@)),
{
    match expr {
        Expression::Atomic(a) => {
            replace_in_atomic(a, target, replacement);
        },
        Expression::Parameter(param) => {
            match param {
                Parameter::Signal { index, size } => {
                    replace_in_atomic(index, target, replacement);
                    replace_in_atomic(size, target, replacement);
                },
                Parameter::I64Memory { index, size } => {
                    replace_in_atomic(index, target, replacement);
                    replace_in_atomic(size, target, replacement);
                },
                Parameter::FfMemory { index, size } => {
                    replace_in_atomic(index, target, replacement);
                    replace_in_atomic(size, target, replacement);
                },
                Parameter::SubcmpSignal { component, index, size } => {
                    replace_in_atomic(component, target, replacement);
                    replace_in_atomic(index, target, replacement);
                    replace_in_atomic(size, target, replacement);
                },
            }
        },
    }
}

} // verus!
