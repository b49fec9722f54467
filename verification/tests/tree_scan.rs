use cfg_ssa::cfg::{PhiFunction, PhiPossibility, Statement, Value, CFG};
use cfg_ssa::edge_liveness::compute_fresh_live_out;
use cfg_ssa::tree_scan::{compute_last_uses, BLOCK_EXIT};
use cfg_ssa::types::{Atomic, Expression, NumericType};

fn var(name: &str) -> Expression {
    Expression::Atomic(Atomic::Variable(name.to_string()))
}

fn copy(output: &str, from: &str) -> Statement {
    Statement { num_type: Some(NumericType::Integer), output: Some(output.to_string()), value: Value { operator: None, operands: vec![var(from)] } }
}

#[test]
fn last_uses_skip_variables_live_out_of_the_block() {
    // 0: x = c, branch on c to 1 or 2; 1: y = x, go to 2; 2: p = phi(x from 0, y from 1), z = p
    let mut cfg = CFG::new(0);
    let b1 = cfg.create_new_block();
    let b2 = cfg.create_new_block();
    cfg.add_cond_link(0, NumericType::Integer, var("c"), b1, b2);
    cfg.add_uncond_link(b1, b2);
    cfg.add_instruction(0, copy("x", "c")).unwrap();
    cfg.add_instruction(b1, copy("y", "x")).unwrap();
    cfg.add_phi_function(
        b2,
        PhiFunction {
            output: "p".to_string(),
            possibilities: vec![PhiPossibility { variable: "x".to_string(), block: 0 }, PhiPossibility { variable: "y".to_string(), block: b1 }],
        },
    )
    .unwrap();
    cfg.add_instruction(b2, copy("z", "p")).unwrap();
    let (_, live_out) = compute_fresh_live_out(&cfg.blocks);
    let last = compute_last_uses(&cfg.blocks, &live_out);
    assert_eq!(last.len(), 3);
    // `c` is read by the statement and by the branch: its last use is the exit
    assert_eq!(last[0], vec![(BLOCK_EXIT, "c".to_string())]);
    assert_eq!(last[1], vec![(0, "x".to_string())]);
    assert_eq!(last[2], vec![(0, "p".to_string())]);
}

#[test]
fn the_last_of_several_reads_in_a_block_counts() {
    let mut cfg = CFG::new(0);
    cfg.add_instruction(0, copy("a", "k")).unwrap();
    cfg.add_instruction(0, copy("b", "k")).unwrap();
    cfg.add_instruction(0, copy("d", "a")).unwrap();
    let (_, live_out) = compute_fresh_live_out(&cfg.blocks);
    let last = compute_last_uses(&cfg.blocks, &live_out);
    assert_eq!(last[0], vec![(2, "a".to_string()), (1, "k".to_string())]);
}
