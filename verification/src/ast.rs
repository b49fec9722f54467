//! The abstract syntax of CVM programs: templates and functions whose bodies
//! are operations, conditionals and loops.

use vstd::prelude::*;

use crate::types::{BigNum, Expression, NumericType, Operator};

verus! {

/// How the components of a program are created.
#[derive(Clone, Copy, Debug, PartialEq, Eq, Structural)]
pub enum ComponentCreationMode {
    Implicit,
    Explicit,
}

/// A whole CVM program.
#[derive(Debug)]
pub struct AST {
    pub field: BigNum,
    pub signals_memory: usize,
    pub components_heap: usize,
    pub main_template: String,
    pub components_creation_mode: ComponentCreationMode,
    pub witness: Vec<usize>,
    pub inputs: Option<Vec<String>>,
    pub templates: Vec<Template>,
    pub functions: Vec<Function>,
}

#[derive(Debug)]
pub struct Function {
    pub id: usize,
    pub name: String,
    pub inputs: Vec<(NumericType, Vec<usize>)>,
    pub output: Option<NumericType>,
    pub body: Vec<ASTNode>,
}

#[derive(Debug)]
pub struct Template {
    pub id: usize,
    pub name: String,
    pub inputs: Vec<String>,
    pub outputs: Vec<String>,
    pub signals: usize,
    pub components: Vec<usize>,
    pub body: Vec<ASTNode>,
}

#[derive(Debug)]
pub enum ASTNode {
    Operation {
        num_type: Option<NumericType>,
        operator: Option<Operator>,
        output: Option<String>,
        operands: Vec<Expression>,
    },
    IfThenElse {
        num_type: NumericType,
        condition: Expression,
        if_case: Vec<ASTNode>,
        else_case: Option<Vec<ASTNode>>,
    },
    Loop { body: Vec<ASTNode> },
    Break,
    Continue,
}

/// Every `break` and `continue` that is reached when a body is processed from
/// its start lies inside a loop. Processing a body stops at its first `break`,
/// `continue` or operation with the `Error` operator.
pub open spec fn jumps_ok(body: Seq<ASTNode>, in_loop: bool) -> bool
    decreases body,
{
    if body.len() == 0 {
        true
    } else {
        let rest = body.drop_first();
        match body[0] {
            ASTNode::Operation { operator, .. } => {
                if operator == Some(Operator::Error) {
                    true
                } else {
                    jumps_ok(rest, in_loop)
                }
            },
            ASTNode::IfThenElse { if_case, else_case, .. } => {
                &&& jumps_ok(if_case@, in_loop)
                &&& match else_case {
                    Some(e) => jumps_ok(e@, in_loop),
                    None => true,
                }
                &&& jumps_ok(rest, in_loop)
            },
            ASTNode::Loop { body: inner } => jumps_ok(inner@, true) && jumps_ok(rest, in_loop),
            ASTNode::Break => in_loop,
            ASTNode::Continue => in_loop,
        }
    }
}

/// The number of operations that processing a body from its start reaches:
/// processing stops after its first `break`, `continue` or operation with the
/// `Error` operator, and takes in the operations of nested branches and loops.
pub open spec fn ops_reached(body: Seq<ASTNode>) -> nat
    decreases body,
{
    if body.len() == 0 {
        0
    } else {
        let rest = body.drop_first();
        match body[0] {
            ASTNode::Operation { operator, .. } => {
                if operator == Some(Operator::Error) {
                    1
                } else {
                    1 + ops_reached(rest)
                }
            },
            ASTNode::IfThenElse { if_case, else_case, .. } => ops_reached(if_case@) + match else_case {
                Some(e) => ops_reached(e@),
                None => 0,
            } + ops_reached(rest),
            ASTNode::Loop { body: inner } => ops_reached(inner@) + ops_reached(rest),
            ASTNode::Break => 0,
            ASTNode::Continue => 0,
        }
    }
}

/// The number of blocks that processing a body from its start adds to the graph:
/// two for each loop reached (its first block and the block after it), and for
/// each conditional reached, its first `then` block, the block where the branches
/// meet, and the first `else` block where there is an `else` branch.
pub open spec fn blocks_reached(body: Seq<ASTNode>) -> nat
    decreases body,
{
    if body.len() == 0 {
        0
    } else {
        let rest = body.drop_first();
        match body[0] {
            ASTNode::Operation { operator, .. } => {
                if operator == Some(Operator::Error) {
                    0
                } else {
                    blocks_reached(rest)
                }
            },
            ASTNode::IfThenElse { if_case, else_case, .. } => blocks_reached(if_case@) + match else_case {
                Some(e) => 3 + blocks_reached(e@),
                None => 2,
            } + blocks_reached(rest),
            ASTNode::Loop { body: inner } => 2 + blocks_reached(inner@) + blocks_reached(rest),
            ASTNode::Break => 0,
            ASTNode::Continue => 0,
        }
    }
}

} // verus!
