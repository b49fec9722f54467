use cfg_ssa::cfg::{line_before, LineInstruction, Use};
use cfg_ssa::cfg_construction::UseTemp;
use cfg_ssa::collections::Ranked;

fn stmt(line: usize) -> LineInstruction {
    LineInstruction { is_phi: false, line }
}

fn phi(line: usize) -> LineInstruction {
    LineInstruction { is_phi: true, line }
}

#[test]
fn statement_lines_come_before_phi_lines() {
    assert!(line_before(&stmt(7), &phi(0)));
    assert!(!line_before(&phi(0), &stmt(7)));
    assert!(line_before(&phi(1), &phi(2)));
    assert!(!line_before(&stmt(2), &stmt(2)));
}

#[test]
fn uses_are_ordered_by_block_then_line() {
    let a = Use::InInstruction(1, stmt(5));
    let b = Use::InInstruction(2, stmt(0));
    let c = Use::InCondition(1);
    assert!(a.before(&b));
    assert!(!b.before(&a));
    assert!(a.before(&c));
    assert!(!c.before(&a));
    assert!(c.before(&Use::InCondition(3)));
    assert!(Use::InInstruction(5, stmt(0)).before(&Use::InCondition(1)));
    assert!(!a.before(&a));
}

#[test]
fn memorized_places_come_before_instructions() {
    let m = UseTemp::InMemoization(9);
    let i = UseTemp::InBlock(Use::InInstruction(0, stmt(0)));
    assert!(m.before(&i));
    assert!(!i.before(&m));
    assert!(UseTemp::InMemoization(1).before(&UseTemp::InMemoization(2)));
    assert!(3usize.before(&4));
    assert!(!4usize.before(&4));
}

#[test]
fn name_maps_keep_their_names_in_order() {
    let mut m: cfg_ssa::collections::NameMap<usize> = cfg_ssa::collections::NameMap::new();
    m.insert("b".to_string(), 1);
    m.insert("a".to_string(), 2);
    m.insert("c".to_string(), 3);
    m.insert("b".to_string(), 4);
    let names: Vec<&str> = m.entries.iter().map(|e| e.0.as_str()).collect();
    assert_eq!(names, vec!["a", "b", "c"]);
    assert_eq!(m.entries[1].1, 4);
    m.remove("a");
    let names: Vec<&str> = m.entries.iter().map(|e| e.0.as_str()).collect();
    assert_eq!(names, vec!["b", "c"]);
}

#[test]
fn item_sets_keep_their_items_in_order() {
    let mut s: cfg_ssa::collections::ItemSet<usize> = cfg_ssa::collections::ItemSet::new();
    assert!(s.insert(5));
    assert!(s.insert(1));
    assert!(s.insert(3));
    assert!(!s.insert(3));
    assert_eq!(s.items, vec![1, 3, 5]);
    s.remove(&1);
    assert_eq!(s.items, vec![3, 5]);
}
