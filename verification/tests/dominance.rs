use bit_set::BitSet;
use rs_pricing::instance::Pricer;
use rs_pricing::label::Label;
use std::collections::BTreeMap;

fn pricer(elementary: bool) -> Pricer {
    let mut made = Pricer::new(
        vec![0, 0],
        vec![(0, 10), (0, 10)],
        vec![0, 0],
        10,
        vec![],
        0,
        1,
        vec![vec![0, 1], vec![1, 0]],
        BTreeMap::new(),
    )
    .unwrap();
    made.set_elementary(elementary);
    made
}

fn label(id: usize, rcost: i128, demand: usize, etime: usize, seen: &[usize]) -> Label {
    let mut visited = BitSet::new();
    for v in seen {
        visited.insert(*v);
    }
    Label::new(id, 1, 0, rcost, demand, etime, visited)
}

#[test]
fn better_in_one_and_no_worse_in_the_rest_dominates() {
    let p = pricer(false);
    let base = label(0, 10, 5, 7, &[1]);
    assert!(p.dominates(&label(1, 9, 5, 7, &[1]), &base));
    assert!(p.dominates(&label(1, 10, 4, 7, &[1]), &base));
    assert!(p.dominates(&label(1, 10, 5, 6, &[1]), &base));
    assert!(p.dominates(&label(1, 1, 1, 1, &[1]), &base));
}

#[test]
fn worse_in_one_does_not_dominate() {
    let p = pricer(false);
    let base = label(0, 10, 5, 7, &[1]);
    assert!(!p.dominates(&label(1, 11, 1, 1, &[1]), &base));
    assert!(!p.dominates(&label(1, 1, 6, 1, &[1]), &base));
    assert!(!p.dominates(&label(1, 1, 1, 8, &[1]), &base));
}

#[test]
fn a_tie_does_not_dominate() {
    let p = pricer(false);
    let a = label(0, 10, 5, 7, &[1]);
    let b = label(1, 10, 5, 7, &[1]);
    assert!(!p.dominates(&a, &b));
    assert!(!p.dominates(&b, &a));
    let e = pricer(true);
    assert!(!e.dominates(&a, &b));
}

#[test]
fn elementary_mode_asks_for_a_subset_of_the_visited_nodes() {
    let relaxed = pricer(false);
    let elementary = pricer(true);
    let small = label(0, 5, 5, 5, &[1, 3]);
    let other = label(1, 9, 5, 5, &[1, 4]);
    let large = label(2, 9, 5, 5, &[1, 3, 4, 70]);
    assert!(relaxed.dominates(&small, &other));
    assert!(!elementary.dominates(&small, &other));
    assert!(elementary.dominates(&small, &large));
    assert!(relaxed.dominates(&small, &large));
    let wide = label(3, 5, 5, 5, &[1, 3, 70]);
    let narrow = label(4, 9, 5, 5, &[1, 3]);
    assert!(!elementary.dominates(&wide, &narrow));
    assert!(relaxed.dominates(&wide, &narrow));
}

fn arena() -> Vec<Label> {
    vec![
        label(0, 10, 5, 7, &[1]),
        label(1, 9, 5, 7, &[1]),
        label(2, 12, 6, 8, &[1]),
        label(3, 9, 5, 7, &[1]),
        label(4, 20, 1, 1, &[1]),
    ]
}

#[test]
fn is_dominated_looks_for_one_dominating_label() {
    let p = pricer(false);
    let labels = arena();
    assert!(p.is_dominated(&label(9, 10, 5, 7, &[1]), &labels, &vec![0, 1]));
    assert!(!p.is_dominated(&label(9, 10, 5, 7, &[1]), &labels, &vec![0, 2, 4]));
    assert!(!p.is_dominated(&label(9, 9, 5, 7, &[1]), &labels, &vec![1, 3]));
    assert!(!p.is_dominated(&label(9, 0, 0, 0, &[1]), &labels, &vec![]));
    assert!(p.is_dominated(&label(9, 30, 9, 9, &[1]), &labels, &vec![4]));
}

#[test]
fn dominated_by_lists_what_a_label_dominates() {
    let p = pricer(false);
    let labels = arena();
    let cand = label(9, 9, 5, 7, &[1]);
    assert_eq!(p.dominated_by(&cand, &labels, &vec![0, 1, 2, 3, 4]), vec![0, 2]);
    assert_eq!(p.dominated_by(&cand, &labels, &vec![4, 2, 0]), vec![2, 0]);
    assert_eq!(p.dominated_by(&cand, &labels, &vec![1, 3, 4]), Vec::<usize>::new());
    assert_eq!(p.dominated_by(&cand, &labels, &vec![]), Vec::<usize>::new());
}

#[test]
fn dominance_check_lists_the_dominated_of_the_first_bag() {
    let p = pricer(false);
    let labels = arena();
    assert_eq!(p._dominance_check(&labels, &vec![0, 1, 2, 3, 4], &vec![1]), vec![0, 2]);
    assert_eq!(p._dominance_check(&labels, &vec![2, 0], &vec![4, 3]), vec![2, 0]);
    assert_eq!(p._dominance_check(&labels, &vec![0, 1, 2], &vec![4]), Vec::<usize>::new());
    assert_eq!(p._dominance_check(&labels, &vec![0, 1, 2], &vec![]), Vec::<usize>::new());
    assert_eq!(p._dominance_check(&labels, &vec![], &vec![1]), Vec::<usize>::new());
    assert_eq!(p._dominance_check(&labels, &vec![2], &vec![0, 1, 2, 3, 4]), vec![2]);
}
