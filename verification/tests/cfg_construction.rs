use cfg_ssa::ast::{ASTNode, Function, Template};
use cfg_ssa::cfg::{LineInstruction, Statement, Successor, Use, CFG};
use cfg_ssa::cfg_construction::CfgConstructor;
use cfg_ssa::types::{Atomic, BigNum, ConstantType, Expression, NumericType, Operator, Parameter};

fn ff(v: u32) -> Expression {
    Expression::Atomic(Atomic::Constant(ConstantType::FF(BigNum { negative: false, limbs: vec![v] })))
}

fn i64c(v: i64) -> Expression {
    Expression::Atomic(Atomic::Constant(ConstantType::I64(v)))
}

fn var(name: &str) -> Expression {
    Expression::Atomic(Atomic::Variable(name.to_string()))
}

fn op(operator: Option<Operator>, output: &str, operands: Vec<Expression>) -> ASTNode {
    ASTNode::Operation {
        num_type: Some(NumericType::FiniteField),
        operator,
        output: Some(output.to_string()),
        operands,
    }
}

// A rendering of a graph in the JSON shape of the serialized graph of the test below.

fn json_name(s: &str) -> String {
    format!("\"{}\"", s)
}

fn json_atomic(a: &Atomic) -> String {
    match a {
        Atomic::Constant(ConstantType::I64(v)) => format!("{{\"Constant\":{{\"I64\":{}}}}}", v),
        Atomic::Constant(ConstantType::FF(b)) => {
            let mut digits = b.limbs.clone();
            while digits.last() == Some(&0) {
                digits.pop();
            }
            let sign = if digits.is_empty() {
                0
            } else if b.negative {
                -1
            } else {
                1
            };
            let ds: Vec<String> = digits.iter().map(|d| d.to_string()).collect();
            format!("{{\"Constant\":{{\"FF\":[{},[{}]]}}}}", sign, ds.join(","))
        },
        Atomic::Variable(v) => format!("{{\"Variable\":{}}}", json_name(v)),
        Atomic::Function(f) => format!("{{\"Function\":{}}}", json_name(f)),
    }
}

fn json_expr(e: &Expression) -> String {
    match e {
        Expression::Atomic(a) => format!("{{\"Atomic\":{}}}", json_atomic(a)),
        Expression::Parameter(Parameter::Signal { index, size }) => format!(
            "{{\"Parameter\":{{\"Signal\":{{\"index\":{},\"size\":{}}}}}}}",
            json_atomic(index),
            json_atomic(size)
        ),
        Expression::Parameter(_) => "\"parameter\"".to_string(),
    }
}

fn json_type(t: &Option<NumericType>) -> String {
    match t {
        None => "null".to_string(),
        Some(NumericType::Integer) => "\"Integer\"".to_string(),
        Some(NumericType::FiniteField) => "\"FiniteField\"".to_string(),
    }
}

fn json_stmt(s: &Statement) -> String {
    let operator = match &s.value.operator {
        None => "null".to_string(),
        Some(o) => format!("\"{:?}\"", o),
    };
    let output = match &s.output {
        None => "null".to_string(),
        Some(o) => json_name(o),
    };
    let operands: Vec<String> = s.value.operands.iter().map(json_expr).collect();
    format!(
        "{{\"num_type\":{},\"output\":{},\"value\":{{\"operator\":{},\"operands\":[{}]}}}}",
        json_type(&s.num_type),
        output,
        operator,
        operands.join(",")
    )
}

fn json_line(l: &LineInstruction) -> String {
    format!("{{\"is_phi\":{},\"line\":{}}}", l.is_phi, l.line)
}

fn json_names(v: &[String]) -> String {
    let parts: Vec<String> = v.iter().map(|s| json_name(s)).collect();
    format!("[{}]", parts.join(","))
}

fn json_cfg(cfg: &CFG) -> String {
    let mut blocks = Vec::new();
    for b in &cfg.blocks {
        let phis: Vec<String> = b
            .phi_functions
            .iter()
            .map(|p| {
                let poss: Vec<String> = p
                    .possibilities
                    .iter()
                    .map(|q| format!("{{\"variable\":{},\"block\":{}}}", json_name(&q.variable), q.block))
                    .collect();
                format!("{{\"output\":{},\"possibilities\":[{}]}}", json_name(&p.output), poss.join(","))
            })
            .collect();
        let stmts: Vec<String> = b.statements.iter().map(json_stmt).collect();
        let preds: Vec<String> = b.predecessors.iter().map(|p| p.to_string()).collect();
        let succ = match &b.successors {
            None => "null".to_string(),
            Some(Successor::Unconditional { to }) => format!("{{\"Unconditional\":{{\"to\":{}}}}}", to),
            Some(Successor::Conditional { condition, to_then, to_else, .. }) => format!(
                "{{\"Conditional\":{{\"condition\":{},\"to_then\":{},\"to_else\":{}}}}}",
                json_expr(condition),
                to_then,
                to_else
            ),
        };
        let decls: Vec<String> =
            b.declarations.entries.iter().map(|(k, l)| format!("{}:{}", json_name(k), json_line(l))).collect();
        let phi_uses: Vec<String> = b.phi_uses.entries.iter().map(|(k, _)| json_name(k)).collect();
        blocks.push(format!(
            "{{\"id\":{},\"phi_functions\":[{}],\"statements\":[{}],\"predecessors\":[{}],\"successors\":{},\"declarations\":{{{}}},\"phi_uses\":[{}],\"live_in\":{},\"live_out\":{}}}",
            b.id,
            phis.join(","),
            stmts.join(","),
            preds.join(","),
            succ,
            decls.join(","),
            phi_uses.join(","),
            json_names(&b.live_in),
            json_names(&b.live_out)
        ));
    }
    let defs: Vec<String> = cfg
        .definitions
        .entries
        .iter()
        .map(|(k, (b, l))| format!("{}:[{},{}]", json_name(k), b, json_line(l)))
        .collect();
    let uses: Vec<String> = cfg
        .def_use
        .entries
        .iter()
        .map(|(k, set)| {
            let us: Vec<String> = set
                .items
                .iter()
                .map(|u| match u {
                    Use::InInstruction(b, l) => format!("{{\"InInstruction\":[{},{}]}}", b, json_line(l)),
                    Use::InCondition(b) => format!("{{\"InCondition\":{}}}", b),
                })
                .collect();
            format!("{}:[{}]", json_name(k), us.join(","))
        })
        .collect();
    format!(
        "{{\"entry\":{},\"blocks\":[{}],\"definitions\":{{{}}},\"def_use\":{{{}}}}}",
        cfg.entry,
        blocks.join(","),
        defs.join(","),
        uses.join(",")
    )
}

fn simple_template() -> Template {
    Template {
        id: 0,
        name: "template_0".to_string(),
        outputs: vec!["output".to_string()],
        inputs: vec!["input1".to_string(), "input2".to_string()],
        signals: 10,
        components: vec![5, 3, 2],
        body: vec![
            op(None, "x", vec![ff(1)]),
            op(None, "y", vec![ff(10)]),
            op(None, "z", vec![ff(9)]),
            op(Some(Operator::Add), "a", vec![var("y"), var("z")]),
            op(None, "condition", vec![i64c(1)]),
            op(None, "loop_condition", vec![i64c(1)]),
            ASTNode::IfThenElse {
                num_type: NumericType::Integer,
                condition: var("condition"),
                if_case: vec![op(Some(Operator::Sub), "x", vec![var("x"), var("y")])],
                else_case: None,
            },
            ASTNode::Loop {
                body: vec![
                    op(Some(Operator::Mul), "b", vec![var("x"), var("z")]),
                    ASTNode::IfThenElse {
                        num_type: NumericType::Integer,
                        condition: var("loop_condition"),
                        if_case: vec![op(Some(Operator::Div), "c", vec![var("x"), var("z")]), ASTNode::Break],
                        else_case: Some(vec![
                            op(Some(Operator::Sub), "x", vec![var("x"), var("z")]),
                            ASTNode::Continue,
                        ]),
                    },
                ],
            },
            op(Some(Operator::Add), "x", vec![var("y"), var("z")]),
        ],
    }
}

const SIMPLE_AST_JSON: &str = r#"{"entry":0,"blocks":[{"id":0,"phi_functions":[],"statements":[{"num_type":"FiniteField","output":"v000","value":{"operator":null,"operands":[{"Atomic":{"Constant":{"FF":[1,[1]]}}}]}},{"num_type":"FiniteField","output":"v001","value":{"operator":null,"operands":[{"Atomic":{"Constant":{"FF":[1,[10]]}}}]}},{"num_type":"FiniteField","output":"v002","value":{"operator":null,"operands":[{"Atomic":{"Constant":{"FF":[1,[9]]}}}]}},{"num_type":"FiniteField","output":"v003","value":{"operator":"Add","operands":[{"Atomic":{"Variable":"v001"}},{"Atomic":{"Variable":"v002"}}]}},{"num_type":"FiniteField","output":"v004","value":{"operator":null,"operands":[{"Atomic":{"Constant":{"I64":1}}}]}},{"num_type":"FiniteField","output":"v005","value":{"operator":null,"operands":[{"Atomic":{"Constant":{"I64":1}}}]}}],"predecessors":[],"successors":{"Conditional":{"condition":{"Atomic":{"Variable":"v004"}},"to_then":1,"to_else":2}},"declarations":{"v000":{"is_phi":false,"line":0},"v001":{"is_phi":false,"line":1},"v002":{"is_phi":false,"line":2},"v003":{"is_phi":false,"line":3},"v004":{"is_phi":false,"line":4},"v005":{"is_phi":false,"line":5}},"phi_uses":["v014"],"live_in":[],"live_out":["v000","v001","v002","v005"]},{"id":1,"phi_functions":[],"statements":[{"num_type":"FiniteField","output":"v006","value":{"operator":"Sub","operands":[{"Atomic":{"Variable":"v000"}},{"Atomic":{"Variable":"v001"}}]}}],"predecessors":[0],"successors":{"Unconditional":{"to":2}},"declarations":{"v006":{"is_phi":false,"line":0}},"phi_uses":["v014"],"live_in":["v000","v001","v002","v005"],"live_out":["v000","v001","v002","v005","v006"]},{"id":2,"phi_functions":[{"output":"v014","possibilities":[{"variable":"v000","block":0},{"variable":"v006","block":1}]}],"statements":[],"predecessors":[0,1],"successors":{"Unconditional":{"to":3}},"declarations":{"v014":{"is_phi":true,"line":0}},"phi_uses":["v007"],"live_in":["v000","v001","v002","v005","v006","v014"],"live_out":["v001","v002","v005","v014"]},{"id":3,"phi_functions":[{"output":"v007","possibilities":[{"variable":"v014","block":2},{"variable":"v012","block":7}]}],"statements":[{"num_type":"FiniteField","output":"v009","value":{"operator":"Mul","operands":[{"Atomic":{"Variable":"v007"}},{"Atomic":{"Variable":"v002"}}]}}],"predecessors":[2,7],"successors":{"Conditional":{"condition":{"Atomic":{"Variable":"v005"}},"to_then":5,"to_else":7}},"declarations":{"v007":{"is_phi":true,"line":0},"v009":{"is_phi":false,"line":0}},"phi_uses":[],"live_in":["v001","v002","v005","v007","v012","v014"],"live_out":["v001","v002","v005","v007","v014"]},{"id":4,"phi_functions":[],"statements":[{"num_type":"FiniteField","output":"v018","value":{"operator":"Add","operands":[{"Atomic":{"Variable":"v001"}},{"Atomic":{"Variable":"v002"}}]}}],"predecessors":[5],"successors":null,"declarations":{"v018":{"is_phi":false,"line":0}},"phi_uses":[],"live_in":["v001","v002"],"live_out":[]},{"id":5,"phi_functions":[],"statements":[{"num_type":"FiniteField","output":"v011","value":{"operator":"Div","operands":[{"Atomic":{"Variable":"v007"}},{"Atomic":{"Variable":"v002"}}]}}],"predecessors":[3],"successors":{"Unconditional":{"to":4}},"declarations":{"v011":{"is_phi":false,"line":0}},"phi_uses":[],"live_in":["v001","v002","v007"],"live_out":["v001","v002"]},{"id":6,"phi_functions":[],"statements":[],"predecessors":[],"successors":null,"declarations":{},"phi_uses":[],"live_in":[],"live_out":[]},{"id":7,"phi_functions":[],"statements":[{"num_type":"FiniteField","output":"v012","value":{"operator":"Sub","operands":[{"Atomic":{"Variable":"v007"}},{"Atomic":{"Variable":"v002"}}]}}],"predecessors":[3],"successors":{"Unconditional":{"to":3}},"declarations":{"v012":{"is_phi":false,"line":0}},"phi_uses":["v007"],"live_in":["v001","v002","v005","v007","v014"],"live_out":["v001","v002","v005","v007","v012","v014"]}],"definitions":{"v000":[0,{"is_phi":false,"line":0}],"v001":[0,{"is_phi":false,"line":1}],"v002":[0,{"is_phi":false,"line":2}],"v003":[0,{"is_phi":false,"line":3}],"v004":[0,{"is_phi":false,"line":4}],"v005":[0,{"is_phi":false,"line":5}],"v006":[1,{"is_phi":false,"line":0}],"v007":[3,{"is_phi":true,"line":0}],"v009":[3,{"is_phi":false,"line":0}],"v011":[5,{"is_phi":false,"line":0}],"v012":[7,{"is_phi":false,"line":0}],"v014":[2,{"is_phi":true,"line":0}],"v018":[4,{"is_phi":false,"line":0}]},"def_use":{"v000":[{"InInstruction":[1,{"is_phi":false,"line":0}]},{"InInstruction":[2,{"is_phi":true,"line":0}]}],"v001":[{"InInstruction":[0,{"is_phi":false,"line":3}]},{"InInstruction":[1,{"is_phi":false,"line":0}]},{"InInstruction":[4,{"is_phi":false,"line":0}]}],"v002":[{"InInstruction":[0,{"is_phi":false,"line":3}]},{"InInstruction":[3,{"is_phi":false,"line":0}]},{"InInstruction":[4,{"is_phi":false,"line":0}]},{"InInstruction":[5,{"is_phi":false,"line":0}]},{"InInstruction":[7,{"is_phi":false,"line":0}]}],"v004":[{"InCondition":0}],"v005":[{"InCondition":3}],"v006":[{"InInstruction":[2,{"is_phi":true,"line":0}]}],"v007":[{"InInstruction":[3,{"is_phi":false,"line":0}]},{"InInstruction":[5,{"is_phi":false,"line":0}]},{"InInstruction":[7,{"is_phi":false,"line":0}]}],"v012":[{"InInstruction":[3,{"is_phi":true,"line":0}]}],"v014":[{"InInstruction":[3,{"is_phi":true,"line":0}]}]}}"#;

/// The graph of a template with a conditional, a loop with `break` and
/// `continue`, and redefinitions, in the serialized shape of the graph (branch
/// types and the count of original variables are checked apart).
#[test]
fn test_simple_ast() {
    let cfg = CFG::new_from_template(simple_template());
    let cfg = match cfg {
        Ok(cfg) => cfg,
        Err(err) => panic!("Error at CFG construction: {}", err),
    };
    assert_eq!(json_cfg(&cfg), SIMPLE_AST_JSON);
    for b in &cfg.blocks {
        if let Some(Successor::Conditional { num_type, .. }) = &b.successors {
            assert_eq!(*num_type, NumericType::Integer);
        }
    }
    // x, y, z, a, condition, loop_condition, b and c
    assert_eq!(cfg.non_ssa_variables, 8);
}

#[test]
fn constructor_processes_a_body_block_by_block() {
    let mut constructor = CfgConstructor::new(CFG::new(0));
    let body = vec![op(None, "x", vec![ff(1)]), op(Some(Operator::Add), "y", vec![var("x"), var("x")])];
    let last = constructor.process_body(&body, 0, None);
    assert_eq!(last, Ok(0));
    assert_eq!(constructor.get_non_ssa(), 2);
    let cfg = constructor.into_cfg();
    assert_eq!(cfg.blocks.len(), 1);
    assert_eq!(cfg.blocks[0].statements.len(), 2);
    assert_eq!(cfg.blocks[0].statements[1].output, Some("v001".to_string()));
    assert_eq!(json_expr(&cfg.blocks[0].statements[1].value.operands[0]), json_expr(&var("v000")));
}

#[test]
fn every_variable_has_one_definition() {
    let cfg = CFG::new_from_template(simple_template()).unwrap();
    let mut seen = std::collections::BTreeSet::new();
    for b in &cfg.blocks {
        for p in &b.phi_functions {
            assert!(seen.insert(p.output.clone()));
        }
        for s in &b.statements {
            if let Some(o) = &s.output {
                assert!(seen.insert(o.clone()));
            }
        }
    }
    assert_eq!(seen.len(), cfg.definitions.entries.len());
}

#[test]
fn reading_an_undefined_variable_fails_liveness() {
    let f = Function {
        id: 0,
        name: "f".to_string(),
        inputs: vec![],
        output: None,
        body: vec![op(Some(Operator::Add), "y", vec![var("missing"), i64c(1)])],
    };
    let r = CFG::new_from_fun(f);
    // the read of `missing` in the entry block, which has no predecessor, gives an
    // operandless φ-node that is never placed, so its name has no definition
    assert_eq!(r.err(), Some("Variable v000 was used, but not defined!".to_string()));
}

#[test]
fn a_parameter_as_branch_condition_is_refused() {
    let t = Template {
        id: 0,
        name: "t".to_string(),
        inputs: vec![],
        outputs: vec![],
        signals: 0,
        components: vec![],
        body: vec![ASTNode::IfThenElse {
            num_type: NumericType::Integer,
            condition: Expression::Parameter(Parameter::Signal { index: Atomic::Constant(ConstantType::I64(0)), size: Atomic::Constant(ConstantType::I64(1)) }),
            if_case: vec![],
            else_case: None,
        }],
    };
    let r = CFG::new_from_template(t);
    assert_eq!(r.err(), Some("The condition of a branch cannot be a parameter for a function".to_string()));
}

#[test]
fn an_error_operation_ends_the_body() {
    let t = Template {
        id: 0,
        name: "t".to_string(),
        inputs: vec![],
        outputs: vec![],
        signals: 0,
        components: vec![],
        body: vec![
            op(None, "x", vec![i64c(2)]),
            ASTNode::Operation { num_type: None, operator: Some(Operator::Error), output: None, operands: vec![var("x")] },
            op(None, "y", vec![i64c(3)]),
        ],
    };
    let cfg = CFG::new_from_template(t).unwrap();
    assert_eq!(cfg.blocks.len(), 1);
    assert_eq!(cfg.blocks[0].statements.len(), 2);
    assert_eq!(cfg.definitions.entries.len(), 1);
}

#[test]
fn the_default_graph_is_empty() {
    let c = CFG::default();
    assert_eq!(c.entry, 0);
    assert!(c.blocks.is_empty());
    assert_eq!(c.non_ssa_variables, 0);
    assert!(c.definitions.entries.is_empty());
    assert!(c.def_use.entries.is_empty());
    let l = cfg_ssa::cfg_list::CFGList::default();
    assert_eq!(l.entry, 0);
    assert!(l.cfgs.is_empty());
}

#[test]
fn a_body_of_plain_operations_ends_where_it_starts() {
    let mut constructor = CfgConstructor::new(CFG::new(0));
    let body = vec![
        op(None, "x", vec![i64c(2)]),
        ASTNode::Operation { num_type: None, operator: Some(Operator::Error), output: None, operands: vec![var("x")] },
        op(None, "y", vec![var("x")]),
    ];
    assert_eq!(constructor.process_body(&body, 0, None), Ok(0));
}
