use cfg_ssa::cfg::{PhiFunction, PhiPossibility, Statement, Value, CFG};
use cfg_ssa::edge_liveness::{compute_fresh_live_out, NameSet};
use cfg_ssa::types::{Atomic, Expression, NumericType};

fn var(name: &str) -> Expression {
    Expression::Atomic(Atomic::Variable(name.to_string()))
}

fn copy(output: &str, from: &str) -> Statement {
    Statement { num_type: Some(NumericType::Integer), output: Some(output.to_string()), value: Value { operator: None, operands: vec![var(from)] } }
}

fn names(s: &NameSet) -> Vec<String> {
    s.entries.iter().map(|(k, _)| k.clone()).collect()
}

/// Block 0 defines `x` from `c` and branches on `c` to blocks 1 and 2; block 1
/// defines `y` from `x` and goes to block 2, whose φ-function takes `x` from
/// block 0 and `y` from block 1.
fn diamond() -> CFG {
    let mut cfg = CFG::new(0);
    let b1 = cfg.create_new_block();
    let b2 = cfg.create_new_block();
    cfg.add_cond_link(0, NumericType::Integer, var("c"), b1, b2);
    cfg.add_uncond_link(b1, b2);
    cfg.add_instruction(0, copy("x", "c")).unwrap();
    cfg.add_instruction(b1, copy("y", "x")).unwrap();
    cfg.add_phi_function(
        b2,
        PhiFunction {
            output: "p".to_string(),
            possibilities: vec![PhiPossibility { variable: "x".to_string(), block: 0 }, PhiPossibility { variable: "y".to_string(), block: b1 }],
        },
    )
    .unwrap();
    cfg.add_instruction(b2, copy("z", "p")).unwrap();
    cfg
}

#[test]
fn phi_operands_are_live_only_on_their_own_edge() {
    let cfg = diamond();
    let (live_in, live_out) = compute_fresh_live_out(&cfg.blocks);
    assert_eq!(names(&live_in[0]), vec!["c"]);
    assert_eq!(names(&live_out[0]), vec!["x"]);
    assert_eq!(names(&live_in[1]), vec!["x"]);
    assert_eq!(names(&live_out[1]), vec!["y"]);
    assert!(names(&live_in[2]).is_empty());
    assert!(names(&live_out[2]).is_empty());
}

#[test]
fn liveness_sets_solve_the_equations() {
    let cfg = diamond();
    let (live_in, live_out) = compute_fresh_live_out(&cfg.blocks);
    // live_out(1) = (live_in(2) - {p}) + {y}, live_in(1) = {x} + (live_out(1) - {y})
    let out1 = names(&live_out[1]);
    assert!(out1.contains(&"y".to_string()) && !out1.contains(&"x".to_string()));
    let in1 = names(&live_in[1]);
    assert!(in1.contains(&"x".to_string()) && !in1.contains(&"y".to_string()));
    assert_eq!(live_in.len(), 3);
    assert_eq!(live_out.len(), 3);
}

#[test]
fn a_loop_keeps_its_carried_variable_live_around_the_back_edge() {
    // 0 -> 1; 1 -> 1 (back edge) or 2; block 1 reads and redefines nothing, but
    // block 2 reads `a`, defined in block 0.
    let mut cfg = CFG::new(0);
    let b1 = cfg.create_new_block();
    let b2 = cfg.create_new_block();
    cfg.add_instruction(0, copy("a", "k")).unwrap();
    cfg.add_uncond_link(0, b1);
    cfg.add_cond_link(b1, NumericType::Integer, var("k"), b1, b2);
    cfg.add_instruction(b2, copy("r", "a")).unwrap();
    let (live_in, live_out) = compute_fresh_live_out(&cfg.blocks);
    assert_eq!(names(&live_in[0]), vec!["k"]);
    assert_eq!(names(&live_out[0]), vec!["a", "k"]);
    assert_eq!(names(&live_in[b1]), vec!["a", "k"]);
    assert_eq!(names(&live_out[b1]), vec!["a", "k"]);
    assert_eq!(names(&live_in[b2]), vec!["a"]);
    assert!(names(&live_out[b2]).is_empty());
}
