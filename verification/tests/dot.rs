use cfg_ssa::ast::{ASTNode, Function, Template, AST, ComponentCreationMode};
use cfg_ssa::cfg::{Statement, Value, CFG};
use cfg_ssa::cfg_list::CFGList;
use cfg_ssa::types::{Atomic, BigNum, ConstantType, Expression, NumericType, Operator};

fn var(name: &str) -> Expression {
    Expression::Atomic(Atomic::Variable(name.to_string()))
}

fn ff_limbs(limbs: Vec<u32>) -> Expression {
    Expression::Atomic(Atomic::Constant(ConstantType::FF(BigNum { negative: false, limbs })))
}

fn op(operator: Option<Operator>, output: &str, operands: Vec<Expression>) -> ASTNode {
    ASTNode::Operation { num_type: Some(NumericType::FiniteField), operator, output: Some(output.to_string()), operands }
}

#[test]
fn dot_destruction_writes_boxes_with_debug_text() {
    let mut cfg = CFG::new(0);
    cfg.add_instruction(
        0,
        Statement {
            num_type: Some(NumericType::FiniteField),
            output: Some("x".to_string()),
            value: Value { operator: Some(Operator::Add), operands: vec![var("a"), ff_limbs(vec![1])] },
        },
    )
    .unwrap();
    let expected = "digraph G3 {\n  0 [label=\"Block 0\nx = ff.add Atomic(Variable(\\\"a\\\")) Atomic(Constant(FF(BigInt { sign: Plus, data: BigUint { data: [1] } }))) \", shape=box];\n}\n";
    assert_eq!(cfg.to_dot_destruction(3), expected);
}

#[test]
fn big_constants_are_written_in_64_bit_digits() {
    let mut cfg = CFG::new(0);
    cfg.add_instruction(
        0,
        Statement {
            num_type: None,
            output: None,
            value: Value { operator: Some(Operator::Return), operands: vec![ff_limbs(vec![0, 0, 1]), ff_limbs(vec![0])] },
        },
    )
    .unwrap();
    let text = cfg.to_dot_destruction(0);
    assert!(text.contains("return Atomic(Constant(FF(BigInt { sign: Plus, data: BigUint { data: [0, 1] } }))) Atomic(Constant(FF(BigInt { sign: NoSign, data: BigUint { data: [] } }))) "));
}

#[test]
fn dot_writes_live_sets_phis_edges_and_chains() {
    let t = Template {
        id: 0,
        name: "main".to_string(),
        inputs: vec![],
        outputs: vec![],
        signals: 0,
        components: vec![],
        body: vec![
            op(None, "x", vec![ff_limbs(vec![1])]),
            ASTNode::IfThenElse {
                num_type: NumericType::Integer,
                condition: var("x"),
                if_case: vec![op(Some(Operator::Sub), "x", vec![var("x"), var("x")])],
                else_case: None,
            },
            op(Some(Operator::Add), "y", vec![var("x"), var("x")]),
        ],
    };
    let cfg = CFG::new_from_template(t).unwrap();
    let dot = cfg.to_dot(0);
    assert!(dot.starts_with("digraph G0 {\n  0 [label=\"Block 0\nLive in: []\nv000 = ff.Atomic(Constant(FF(BigInt { sign: Plus, data: BigUint { data: [1] } }))) \nLive out: ["));
    assert!(dot.contains("  0 -> 1 [label=\"Atomic(Variable(\\\"v000\\\")) != 0\"];\n  0 -> 2 [label=\"Atomic(Variable(\\\"v000\\\")) == 0\"];\n"));
    assert!(dot.contains("  1 -> 2;\n"));
    assert!(dot.contains("v002 = φ v000 (B0), v001 (B1), "));
    assert!(dot.contains("  DU [shape=box, label=\"Def-Use Chains\\lv000 → 1:0, 2:0(φ), 0:c\\lv001 → 2:0(φ)\\lv002 → 2:1\\l\"];\n"));
    assert!(dot.contains("  DEF [shape=box, label=\"Definitions\\lv000 → 0:0\\lv001 → 1:0\\lv002 → 2:0(φ)\\lv003 → 2:0\\l\"];\n"));
    assert!(dot.ends_with("}\n"));
}

fn template(name: &str, body: Vec<ASTNode>) -> Template {
    Template { id: 0, name: name.to_string(), inputs: vec![], outputs: vec![], signals: 0, components: vec![], body }
}

#[test]
fn a_program_has_one_graph_per_function_and_template() {
    let ast = AST {
        field: BigNum { negative: false, limbs: vec![7] },
        signals_memory: 0,
        components_heap: 0,
        main_template: "main".to_string(),
        components_creation_mode: ComponentCreationMode::Implicit,
        witness: vec![],
        inputs: None,
        templates: vec![
            template("main", vec![op(None, "a", vec![ff_limbs(vec![2])])]),
            template("other", vec![]),
            template("main", vec![op(None, "b", vec![ff_limbs(vec![3])]), op(Some(Operator::Add), "c", vec![var("b"), var("b")])]),
        ],
        functions: vec![Function { id: 0, name: "f".to_string(), inputs: vec![], output: None, body: vec![] }],
    };
    let mut list = CFGList::new(ast).unwrap();
    assert_eq!(list.cfgs.len(), 4);
    // the last template named as the main one, after the function
    assert_eq!(list.entry, 3);
    let (cfgs, blocks, originals, ssa, instructions) = list.metric_counts();
    assert_eq!(cfgs, 4);
    assert_eq!(blocks, 4);
    assert_eq!(originals, 3);
    assert_eq!(ssa, 3);
    assert_eq!(instructions, 3);
    let dots = list.to_dot();
    assert_eq!(dots.len(), 4);
    assert!(dots[3].starts_with("digraph G3 {\n"));
    assert_eq!(list.destroy_ssa_all(), Ok(()));
    let after = list.to_dot_destruction();
    assert_eq!(after[1], "digraph G1 {\n  0 [label=\"Block 0\nv000 = ff.Atomic(Constant(FF(BigInt { sign: Plus, data: BigUint { data: [2] } }))) \", shape=box];\n}\n");
}

#[test]
fn a_program_without_its_main_template_starts_at_zero() {
    let ast = AST {
        field: BigNum { negative: false, limbs: vec![7] },
        signals_memory: 0,
        components_heap: 0,
        main_template: "absent".to_string(),
        components_creation_mode: ComponentCreationMode::Explicit,
        witness: vec![],
        inputs: None,
        templates: vec![template("main", vec![])],
        functions: vec![],
    };
    let list = CFGList::new(ast).unwrap();
    assert_eq!(list.entry, 0);
    assert_eq!(list.cfgs.len(), 1);
}
