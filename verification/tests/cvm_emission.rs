use cfg_ssa::cfg::{Statement, Value};
use cfg_ssa::cvm_emission::{atomic_to_cvm, expression_to_cvm, operator_to_cvm, parameter_to_cvm, statement_to_cvm};
use cfg_ssa::types::{Atomic, BigNum, ConstantType, Expression, NumericType, Operator, Parameter};

#[test]
fn operators_have_their_cvm_mnemonics() {
    assert_eq!(operator_to_cvm(&Operator::Add), "add");
    assert_eq!(operator_to_cvm(&Operator::GreaterEqual), "ge");
    assert_eq!(operator_to_cvm(&Operator::Extend), "extend_i64");
    assert_eq!(operator_to_cvm(&Operator::GetBusSignalDim), "get_bus_signal_dimension");
    assert_eq!(operator_to_cvm(&Operator::MSetCmpInFromMemoryCntCheck), "mset_cmp_input_from_memory_cnt_check");
}

#[test]
fn atomics_are_written_with_their_type() {
    assert_eq!(atomic_to_cvm(&Atomic::Constant(ConstantType::I64(-3))), "i64.-3");
    assert_eq!(atomic_to_cvm(&Atomic::Variable("v001".to_string())), "v001");
    assert_eq!(atomic_to_cvm(&Atomic::Function("f".to_string())), "$f");
    // two base-2^32 limbs: 1 + 1 * 2^32
    let big = BigNum { negative: false, limbs: vec![1, 1] };
    assert_eq!(atomic_to_cvm(&Atomic::Constant(ConstantType::FF(big))), "ff.4294967297");
    let neg = BigNum { negative: true, limbs: vec![5] };
    assert_eq!(atomic_to_cvm(&Atomic::Constant(ConstantType::FF(neg))), "ff.-5");
}

#[test]
fn parameters_and_statements_are_written_as_instructions() {
    let p = Parameter::Signal { index: Atomic::Variable("i".to_string()), size: Atomic::Constant(ConstantType::I64(1)) };
    assert_eq!(parameter_to_cvm(&p), "signal(i,i64.1)");
    let e = Expression::Atomic(Atomic::Variable("x".to_string()));
    assert_eq!(expression_to_cvm(&e), "x");
    let st = Statement {
        num_type: Some(NumericType::FiniteField),
        output: Some("y".to_string()),
        value: Value { operator: Some(Operator::Mul), operands: vec![e.clone(), e] },
    };
    assert_eq!(statement_to_cvm(&st), "y = ff.mul x x");
}

fn loop_graph() -> cfg_ssa::cfg::CFG {
    // 0 -> 1; 1 branches to 2 (the body) or 3 (after the loop); 2 -> 1.
    let mut cfg = cfg_ssa::cfg::CFG::new(0);
    let b1 = cfg.create_new_block();
    let b2 = cfg.create_new_block();
    let b3 = cfg.create_new_block();
    cfg.add_uncond_link(0, b1);
    cfg.add_cond_link(b1, NumericType::Integer, Expression::Atomic(Atomic::Variable("c".to_string())), b2, b3);
    cfg.add_uncond_link(b2, b1);
    cfg
}

#[test]
fn a_back_edge_gives_a_natural_loop_with_its_exit() {
    let cfg = loop_graph();
    let idom = cfg_ssa::cvm_emission::compute_idom(&cfg.blocks, 0);
    assert_eq!(idom, vec![Some(0), Some(0), Some(1), Some(1)]);
    assert!(cfg_ssa::cvm_emission::dominates(1, 2, &idom));
    assert!(!cfg_ssa::cvm_emission::dominates(2, 3, &idom));
    let loops = cfg_ssa::cvm_emission::find_loops(&cfg.blocks, &idom);
    assert_eq!(loops.len(), 1);
    assert_eq!(loops[0].header, 1);
    assert_eq!(loops[0].exit, 3);
    assert_eq!(loops[0].body, vec![false, true, true, false]);
}

#[test]
fn only_blocks_reachable_from_the_entry_get_a_dominator() {
    // 0 -> 1; block 2 is not reachable but jumps to 1
    let mut cfg = cfg_ssa::cfg::CFG::new(0);
    let b1 = cfg.create_new_block();
    let b2 = cfg.create_new_block();
    cfg.add_uncond_link(0, b1);
    cfg.add_uncond_link(b2, b1);
    let idom = cfg_ssa::cvm_emission::compute_idom(&cfg.blocks, 0);
    assert_eq!(idom, vec![Some(0), Some(0), None]);
}

#[test]
fn post_dominators_join_a_conditional_and_send_dead_ends_to_the_exit() {
    // 0 branches to 1 or 2; both go to 3, which ends; 4 loops on itself forever
    let mut cfg = cfg_ssa::cfg::CFG::new(0);
    let b1 = cfg.create_new_block();
    let b2 = cfg.create_new_block();
    let b3 = cfg.create_new_block();
    let b4 = cfg.create_new_block();
    cfg.add_cond_link(0, NumericType::Integer, Expression::Atomic(Atomic::Variable("c".to_string())), b1, b2);
    cfg.add_uncond_link(b1, b3);
    cfg.add_uncond_link(b2, b3);
    cfg.add_uncond_link(b4, b4);
    let ipostdom = cfg_ssa::cvm_emission::compute_ipostdom(&cfg.blocks);
    assert_eq!(ipostdom, vec![3, 3, 3, 5, 5]);
}

fn int_copy(output: &str, from: &str) -> Statement {
    Statement {
        num_type: Some(NumericType::Integer),
        output: Some(output.to_string()),
        value: Value { operator: None, operands: vec![Expression::Atomic(Atomic::Variable(from.to_string()))] },
    }
}

#[test]
fn a_conditional_is_written_as_if_else_end_then_its_join() {
    let mut cfg = cfg_ssa::cfg::CFG::new(0);
    let b1 = cfg.create_new_block();
    let b2 = cfg.create_new_block();
    let b3 = cfg.create_new_block();
    cfg.add_cond_link(0, NumericType::Integer, Expression::Atomic(Atomic::Variable("c".to_string())), b1, b2);
    cfg.add_uncond_link(b1, b3);
    cfg.add_uncond_link(b2, b3);
    cfg.add_instruction(b1, int_copy("p", "a")).unwrap();
    cfg.add_instruction(b2, int_copy("q", "b")).unwrap();
    cfg.add_instruction(b3, int_copy("r", "c")).unwrap();
    let body = cfg_ssa::cvm_emission::cfg_to_cvm_body(&cfg);
    assert_eq!(body, "i64.if c\np = i64.a\nelse\nq = i64.b\nend\nr = i64.c\n");
}

#[test]
fn a_loop_is_written_with_continue_and_break() {
    let mut cfg = loop_graph();
    cfg.add_instruction(0, int_copy("i", "k")).unwrap();
    cfg.add_instruction(2, int_copy("j", "i")).unwrap();
    cfg.add_instruction(3, int_copy("r", "i")).unwrap();
    let body = cfg_ssa::cvm_emission::cfg_to_cvm_body(&cfg);
    assert_eq!(body, "i = i64.k\nloop\ni64.if c\nj = i64.i\ncontinue\nend\nbreak\nend\nr = i64.i\n");
}
