use std::collections::BTreeMap;

use cfg_ssa::ast::{ASTNode, Template};
use cfg_ssa::cfg::{PhiFunction, PhiPossibility, Statement, Value, CFG};
use cfg_ssa::ssa_destruction::sequentialize_parallel_copies;
use cfg_ssa::types::{Atomic, Expression, NumericType, Operator};

fn pair(d: &str, s: &str) -> (String, String) {
    (d.to_string(), s.to_string())
}

/// Runs copies one after the other on an environment where every variable
/// starts out holding its own name.
fn run(copies: &[(String, String)], vars: &[&str]) -> BTreeMap<String, String> {
    let mut env: BTreeMap<String, String> = vars.iter().map(|v| (v.to_string(), v.to_string())).collect();
    for (d, s) in copies {
        let v = env.get(s).cloned().unwrap_or_else(|| s.clone());
        env.insert(d.clone(), v);
    }
    env
}

#[test]
fn a_swap_is_sequentialized_through_a_temporary() {
    let copies = vec![pair("a", "b"), pair("b", "a")];
    let seq = sequentialize_parallel_copies(copies);
    assert_eq!(seq.len(), 3);
    assert!(seq.iter().any(|(d, _)| d == "_seq_000"));
    let env = run(&seq, &["a", "b"]);
    assert_eq!(env["a"], "b");
    assert_eq!(env["b"], "a");
}

#[test]
fn a_chain_runs_without_temporaries_in_dependency_order() {
    // a <- b, b <- c in parallel: a must be written before b
    let seq = sequentialize_parallel_copies(vec![pair("b", "c"), pair("a", "b")]);
    assert_eq!(seq, vec![pair("a", "b"), pair("b", "c")]);
}

#[test]
fn identity_copies_are_dropped() {
    assert_eq!(sequentialize_parallel_copies(vec![pair("x", "x")]), vec![]);
    assert_eq!(sequentialize_parallel_copies(vec![]), vec![]);
}

#[test]
fn a_rotation_keeps_the_parallel_meaning() {
    let copies = vec![pair("a", "b"), pair("b", "c"), pair("c", "a"), pair("d", "a")];
    let seq = sequentialize_parallel_copies(copies);
    let env = run(&seq, &["a", "b", "c", "d"]);
    assert_eq!(env["a"], "b");
    assert_eq!(env["b"], "c");
    assert_eq!(env["c"], "a");
    assert_eq!(env["d"], "a");
}

fn var(name: &str) -> Expression {
    Expression::Atomic(Atomic::Variable(name.to_string()))
}

#[test]
fn destroy_ssa_refuses_a_phi_without_an_operand_for_a_predecessor() {
    let mut cfg = CFG::new(0);
    let b1 = cfg.create_new_block();
    let b2 = cfg.create_new_block();
    cfg.add_cond_link(0, NumericType::Integer, var("c"), b1, b2);
    cfg.add_uncond_link(b1, b2);
    cfg.add_instruction(
        0,
        Statement { num_type: Some(NumericType::Integer), output: Some("x".to_string()), value: Value { operator: None, operands: vec![var("c")] } },
    )
    .unwrap();
    cfg.add_phi_function(
        b2,
        PhiFunction { output: "p".to_string(), possibilities: vec![PhiPossibility { variable: "x".to_string(), block: 0 }] },
    )
    .unwrap();
    let before = cfg.blocks[b2].phi_functions.len();
    assert_eq!(cfg.destroy_ssa(), Err("Missing phi operand for predecessor".to_string()));
    assert_eq!(cfg.blocks[b2].phi_functions.len(), before);
}

#[test]
fn destroy_ssa_removes_every_phi_and_every_self_copy() {
    let t = Template {
        id: 0,
        name: "t".to_string(),
        inputs: vec![],
        outputs: vec![],
        signals: 0,
        components: vec![],
        body: vec![
            ASTNode::Operation { num_type: Some(NumericType::Integer), operator: None, output: Some("i".to_string()), operands: vec![Expression::Atomic(Atomic::Constant(cfg_ssa::types::ConstantType::I64(0)))] },
            ASTNode::Loop {
                body: vec![
                    ASTNode::Operation { num_type: Some(NumericType::Integer), operator: Some(Operator::Add), output: Some("i".to_string()), operands: vec![var("i"), Expression::Atomic(Atomic::Constant(cfg_ssa::types::ConstantType::I64(1)))] },
                    ASTNode::IfThenElse { num_type: NumericType::Integer, condition: var("i"), if_case: vec![ASTNode::Break], else_case: Some(vec![ASTNode::Continue]) },
                ],
            },
        ],
    };
    let mut cfg = CFG::new_from_template(t).unwrap();
    let phis_before: usize = cfg.blocks.iter().map(|b| b.phi_functions.len()).sum();
    assert!(phis_before > 0);
    assert_eq!(cfg.destroy_ssa(), Ok(()));
    for b in &cfg.blocks {
        assert!(b.phi_functions.is_empty());
        for s in &b.statements {
            assert!(!s.is_identity_copy());
        }
    }
}

fn counting_loop() -> Template {
    Template {
        id: 0,
        name: "t".to_string(),
        inputs: vec![],
        outputs: vec![],
        signals: 0,
        components: vec![],
        body: vec![
            ASTNode::Operation { num_type: Some(NumericType::Integer), operator: None, output: Some("i".to_string()), operands: vec![Expression::Atomic(Atomic::Constant(cfg_ssa::types::ConstantType::I64(0)))] },
            ASTNode::Operation { num_type: Some(NumericType::FiniteField), operator: None, output: Some("f".to_string()), operands: vec![Expression::Atomic(Atomic::Constant(cfg_ssa::types::ConstantType::I64(5)))] },
            ASTNode::Loop {
                body: vec![
                    ASTNode::Operation { num_type: Some(NumericType::Integer), operator: Some(Operator::Add), output: Some("i".to_string()), operands: vec![var("i"), Expression::Atomic(Atomic::Constant(cfg_ssa::types::ConstantType::I64(1)))] },
                    ASTNode::IfThenElse { num_type: NumericType::Integer, condition: var("i"), if_case: vec![ASTNode::Break], else_case: Some(vec![ASTNode::Continue]) },
                ],
            },
            ASTNode::Operation { num_type: Some(NumericType::FiniteField), operator: Some(Operator::Mul), output: Some("g".to_string()), operands: vec![var("f"), var("f")] },
        ],
    }
}

#[test]
fn isolated_phis_read_and_write_only_fresh_temporaries() {
    let mut cfg = CFG::new_from_template(counting_loop()).unwrap();
    cfg.isolate_phis();
    let mut phis = 0;
    for b in &cfg.blocks {
        for p in &b.phi_functions {
            phis += 1;
            assert!(p.output.starts_with("tmp_"));
            // the block starts with the copy of the φ's temporary into the old output
            assert!(b.statements.iter().any(|s| s.value.operands.len() == 1
                && s.value.operator.is_none()
                && matches!(&s.value.operands[0], Expression::Atomic(Atomic::Variable(v)) if *v == p.output)));
            for q in &p.possibilities {
                assert!(q.variable.starts_with("tmp_"));
                // the predecessor ends by copying the operand into the temporary
                let pred = &cfg.blocks[q.block];
                assert_eq!(pred.statements.last().and_then(|s| s.output.clone()).map(|o| o.starts_with("tmp_")), Some(true));
            }
        }
    }
    assert!(phis > 0);
}

#[test]
fn coloring_never_merges_variables_of_different_types() {
    let cfg = CFG::new_from_template(counting_loop()).unwrap();
    let (rename, types) = cfg.color_variables();
    assert!(!rename.entries.is_empty());
    let type_of = |v: &str| cfg_ssa::tree_scan::type_of(v, &types);
    let mut integers = 0;
    for (v, r) in &rename.entries {
        assert_eq!(type_of(v), type_of(r));
        if type_of(v) == NumericType::Integer {
            integers += 1;
        }
    }
    assert!(integers > 0);
}

fn targets(b: &cfg_ssa::cfg::BasicBlock) -> Vec<usize> {
    match &b.successors {
        Some(cfg_ssa::cfg::Successor::Unconditional { to }) => vec![*to],
        Some(cfg_ssa::cfg::Successor::Conditional { to_then, to_else, .. }) => vec![*to_then, *to_else],
        None => vec![],
    }
}

#[test]
fn every_edge_is_listed_among_the_predecessors_of_its_target() {
    let mut cfg = CFG::new_from_template(counting_loop()).unwrap();
    for (a, b) in cfg.blocks.iter().enumerate() {
        for t in targets(b) {
            assert!(cfg.blocks[t].predecessors.contains(&a));
        }
    }
    assert_eq!(cfg.destroy_ssa(), Ok(()));
    for (a, b) in cfg.blocks.iter().enumerate() {
        for t in targets(b) {
            assert!(cfg.blocks[t].predecessors.contains(&a));
        }
    }
    // exactly the blocks reachable from the entry have a dominator
    let idom = cfg_ssa::cvm_emission::compute_idom(&cfg.blocks, cfg.entry);
    let mut seen = vec![false; cfg.blocks.len()];
    let mut stack = vec![cfg.entry];
    while let Some(x) = stack.pop() {
        if !seen[x] {
            seen[x] = true;
            stack.extend(targets(&cfg.blocks[x]));
        }
    }
    for (b, d) in idom.iter().enumerate() {
        assert_eq!(d.is_some(), seen[b]);
    }
}

#[test]
fn construction_emits_one_statement_per_reached_operation() {
    let cfg = CFG::new_from_template(counting_loop()).unwrap();
    let total: usize = cfg.blocks.iter().map(|b| b.statements.len()).sum();
    // i = 0, f = 5, the increment inside the loop, and g = f * f
    assert_eq!(total, 4);
    // the entry, the loop's first block and the block after it, and the
    // conditional's then, else and meeting blocks
    assert_eq!(cfg.blocks.len(), 6);
}

#[test]
fn identity_copies_among_others_are_dropped() {
    assert_eq!(sequentialize_parallel_copies(vec![pair("a", "a"), pair("b", "c")]), vec![pair("b", "c")]);
    assert_eq!(sequentialize_parallel_copies(vec![pair("a", "a"), pair("b", "b")]), vec![]);
}

#[test]
fn a_chain_writes_the_read_destination_last() {
    let seq = sequentialize_parallel_copies(vec![pair("b", "a"), pair("c", "b")]);
    assert_eq!(seq, vec![pair("c", "b"), pair("b", "a")]);
}

#[test]
fn each_destination_is_written_once_and_temporaries_count_from_zero() {
    let copies = vec![pair("a", "b"), pair("b", "a"), pair("c", "d"), pair("d", "c"), pair("e", "a")];
    let seq = sequentialize_parallel_copies(copies);
    let mut dests: Vec<&String> = seq.iter().map(|(d, _)| d).collect();
    dests.sort();
    let before = dests.len();
    dests.dedup();
    assert_eq!(dests.len(), before);
    for d in ["a", "b", "c", "d", "e"] {
        assert!(seq.iter().any(|(x, _)| x == d));
    }
    assert!(seq.iter().any(|(x, _)| x == "_seq_000"));
    assert!(seq.iter().any(|(x, _)| x == "_seq_001"));
    assert!(!seq.iter().any(|(x, _)| x == "_seq_002"));
    let env = run(&seq, &["a", "b", "c", "d", "e"]);
    assert_eq!(env["a"], "b");
    assert_eq!(env["b"], "a");
    assert_eq!(env["c"], "d");
    assert_eq!(env["d"], "c");
    assert_eq!(env["e"], "a");
}

#[test]
fn destroy_cssa_ends_each_predecessor_with_the_copies_of_its_operands() {
    let mut c = CFG::new(0);
    c.create_new_block();
    c.create_new_block();
    c.add_uncond_link(0, 2);
    c.add_uncond_link(1, 2);
    c.add_phi_function(
        2,
        PhiFunction {
            output: "x".to_string(),
            possibilities: vec![
                PhiPossibility { variable: "a".to_string(), block: 0 },
                PhiPossibility { variable: "b".to_string(), block: 1 },
            ],
        },
    )
    .unwrap();
    c.isolate_phis();
    c.destroy_cssa();
    let render = |b: usize| -> Vec<String> {
        c.blocks[b].statements.iter().map(cfg_ssa::cvm_emission::statement_to_cvm).collect()
    };
    for b in &c.blocks {
        assert!(b.phi_functions.is_empty());
    }
    assert_eq!(render(0), vec!["tmp_000 = a".to_string()]);
    assert_eq!(render(1), vec!["tmp_000 = b".to_string()]);
    assert_eq!(render(2), vec!["x = tmp_000".to_string()]);
}

#[test]
fn isolate_phis_gives_each_temporary_one_place() {
    let mut c = CFG::new(0);
    c.create_new_block();
    c.create_new_block();
    c.add_uncond_link(0, 2);
    c.add_uncond_link(1, 2);
    for (out, x, y) in [("x", "a", "b"), ("y", "c", "d")] {
        c.add_phi_function(
            2,
            PhiFunction {
                output: out.to_string(),
                possibilities: vec![
                    PhiPossibility { variable: x.to_string(), block: 0 },
                    PhiPossibility { variable: y.to_string(), block: 1 },
                ],
            },
        )
        .unwrap();
    }
    c.isolate_phis();
    let mut names: Vec<String> = Vec::new();
    for p in &c.blocks[2].phi_functions {
        names.push(p.output.clone());
        for q in &p.possibilities {
            names.push(q.variable.clone());
        }
    }
    names.sort();
    let expected: Vec<String> = (0..6).map(|k| format!("tmp_{:03}", k)).collect();
    assert_eq!(names, expected);
}

#[test]
fn live_in_lists_hold_only_defined_variables_that_flow_to_a_use() {
    let cfg = CFG::new_from_template(counting_loop()).unwrap();
    let defined: Vec<&String> = cfg.definitions.entries.iter().map(|(k, _)| k).collect();
    let mut any = false;
    for (b, block) in cfg.blocks.iter().enumerate() {
        for name in &block.live_in {
            any = true;
            assert!(defined.contains(&name));
            // the definition's block never has the variable live at its entry,
            // unless a φ-function defines it there
            let (def_block, line) = &cfg.definitions.entries.iter().find(|(k, _)| k == name).unwrap().1;
            assert!(*def_block != b || line.is_phi);
        }
    }
    assert!(any);
}
