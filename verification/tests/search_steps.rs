use bit_set::BitSet;
use rs_pricing::extension::RCOST_SCALE;
use rs_pricing::frontier::Search;
use rs_pricing::harvest::root_of;
use rs_pricing::instance::Pricer;
use rs_pricing::label::Label;
use rs_pricing::search::Stage;
use std::collections::{BTreeMap, BTreeSet};

fn square(n: usize, arcs: &[(usize, usize, usize)]) -> Vec<Vec<usize>> {
    let mut drive = vec![vec![0usize; n]; n];
    for (u, v, d) in arcs {
        drive[*u][*v] = *d;
    }
    drive
}

fn succ(lists: &[(usize, Vec<usize>)]) -> BTreeMap<usize, Vec<usize>> {
    lists.iter().cloned().collect()
}

fn duals(prices: &[(usize, i64)]) -> BTreeMap<usize, i64> {
    prices.iter().map(|(u, p)| (*u, p * RCOST_SCALE as i64)).collect()
}

// Two ways from 0 to 3, over 1 and over 2, then on to the end depot 4.
fn two_ways(drive_0_1: usize, drive_0_2: usize) -> Pricer {
    Pricer::new(
        vec![0, 1, 1, 1, 0],
        vec![(0, 100); 5],
        vec![0; 5],
        10,
        vec![1, 2, 3],
        0,
        4,
        square(5, &[(0, 1, drive_0_1), (0, 2, drive_0_2), (1, 3, 1), (2, 3, 1), (3, 4, 1)]),
        succ(&[(0, vec![1, 2]), (1, vec![3]), (2, vec![3]), (3, vec![4])]),
    )
    .unwrap()
}

#[test]
fn search_starts_with_the_initial_label_queued() {
    let pricer = two_ways(1, 2);
    let search = Search::start(&pricer);
    assert_eq!(search.len(), 1);
    let first = search.label(0);
    assert_eq!(first.id, 0);
    assert_eq!(first.last_node, 0);
    assert_eq!(first.cost, 0);
    assert_eq!(first.reduced_cost, 0);
    assert_eq!(first.demand, 0);
    assert_eq!(first.earliest_time, 0);
    assert!(first.visited.is_empty());
    assert_eq!(search.stage(0), Stage::Queued);
    assert_eq!(search.pred(0), None);
    assert_eq!(search.frontier(&pricer, 0), &vec![0]);
    assert_eq!(search.frontier(&pricer, 1), &Vec::<usize>::new());
}

#[test]
fn initial_label_starts_at_the_opening_of_the_depot() {
    let pricer = Pricer::new(
        vec![0, 0],
        vec![(17, 100), (0, 100)],
        vec![0, 0],
        1,
        vec![],
        0,
        1,
        vec![vec![0, 1], vec![1, 0]],
        BTreeMap::new(),
    )
    .unwrap();
    let search = Search::start(&pricer);
    assert_eq!(search.label(0).earliest_time, 17);
}

#[test]
fn pop_takes_the_earliest_and_then_the_youngest() {
    let pricer = two_ways(1, 1);
    let prices = duals(&[(0, 0), (1, 0), (2, 0), (3, 0)]);
    let none = BTreeSet::new();
    let mut search = Search::start(&pricer);
    assert_eq!(search.pop(&pricer), Some(0));
    assert_eq!(search.stage(0), Stage::Expanded);
    assert_eq!(search.pop(&pricer), None);
    search.expand(&pricer, &prices, &none, 0).unwrap();
    assert_eq!(search.len(), 3);
    assert_eq!(search.stage(1), Stage::Queued);
    assert_eq!(search.stage(2), Stage::Queued);
    assert_eq!(search.label(1).earliest_time, 1);
    assert_eq!(search.label(2).earliest_time, 1);
    assert_eq!(search.pop(&pricer), Some(2));
    assert_eq!(search.pop(&pricer), Some(1));
    assert_eq!(search.pop(&pricer), None);
}

#[test]
fn pop_prefers_the_earlier_start_to_the_younger_label() {
    let pricer = two_ways(1, 2);
    let prices = duals(&[(0, 0), (1, 0), (2, 0), (3, 0)]);
    let none = BTreeSet::new();
    let mut search = Search::start(&pricer);
    assert_eq!(search.pop(&pricer), Some(0));
    search.expand(&pricer, &prices, &none, 0).unwrap();
    assert_eq!(search.pop(&pricer), Some(1));
    assert_eq!(search.pop(&pricer), Some(2));
}

#[test]
fn relax_passes_over_visited_and_forbidden_arcs() {
    let pricer = two_ways(1, 2);
    let prices = duals(&[(0, 0), (1, 0), (2, 0), (3, 0)]);
    let mut forbidden = BTreeSet::new();
    forbidden.insert((0usize, 2usize));
    let mut search = Search::start(&pricer);
    search.pop(&pricer);
    search.relax(&pricer, &prices, &forbidden, 0, 2).unwrap();
    assert_eq!(search.len(), 1);
    search.relax(&pricer, &prices, &forbidden, 0, 1).unwrap();
    assert_eq!(search.len(), 2);
    assert_eq!(search.pred(1), Some(0));
    assert_eq!(search.stage(1), Stage::Queued);
    assert_eq!(search.frontier(&pricer, 1), &vec![1]);
    search.relax(&pricer, &prices, &forbidden, 1, 1).unwrap();
    assert_eq!(search.len(), 2);
}

#[test]
fn a_dominated_candidate_is_not_inserted() {
    let pricer = two_ways(1, 2);
    let prices = duals(&[(0, 0), (1, 0), (2, 0), (3, 0)]);
    let none = BTreeSet::new();
    let mut search = Search::start(&pricer);
    search.pop(&pricer);
    search.expand(&pricer, &prices, &none, 0).unwrap();
    search.relax(&pricer, &prices, &none, 1, 3).unwrap();
    assert_eq!(search.len(), 4);
    assert_eq!(search.label(3).last_node, 3);
    assert_eq!(search.label(3).earliest_time, 2);
    search.relax(&pricer, &prices, &none, 2, 3).unwrap();
    assert_eq!(search.len(), 4);
    assert_eq!(search.frontier(&pricer, 3), &vec![3]);
}

#[test]
fn a_dominating_candidate_retires_what_it_dominates() {
    let pricer = two_ways(1, 2);
    let prices = duals(&[(0, 0), (1, 0), (2, 0), (3, 0)]);
    let none = BTreeSet::new();
    let mut search = Search::start(&pricer);
    search.pop(&pricer);
    search.expand(&pricer, &prices, &none, 0).unwrap();
    search.relax(&pricer, &prices, &none, 2, 3).unwrap();
    assert_eq!(search.label(3).earliest_time, 3);
    assert_eq!(search.frontier(&pricer, 3), &vec![3]);
    assert_eq!(search.stage(3), Stage::Queued);
    search.relax(&pricer, &prices, &none, 1, 3).unwrap();
    assert_eq!(search.len(), 5);
    assert_eq!(search.stage(3), Stage::Removed);
    assert_eq!(search.pred(3), None);
    assert_eq!(search.frontier(&pricer, 3), &vec![4]);
    assert_eq!(search.stage(4), Stage::Queued);
    assert_eq!(search.pred(4), Some(1));
    assert_eq!(root_of(&search, 4), 0);
    assert_eq!(root_of(&search, 3), 3);
    let (path, times) = pricer.path_from_label(&search, 4);
    assert_eq!(path, vec![0, 1, 3]);
    assert_eq!(times, vec![0, 1, 2]);
    let (cut, cut_times) = pricer.path_from_label(&search, 3);
    assert_eq!(cut, vec![3]);
    assert_eq!(cut_times, vec![3]);
    assert_eq!(search.pop(&pricer), Some(1));
    assert_eq!(search.pop(&pricer), Some(4));
    assert_eq!(search.pop(&pricer), Some(2));
    assert_eq!(search.pop(&pricer), None);
}

#[test]
fn routes_of_removed_ancestors_are_left_out() {
    let pricer = two_ways(1, 2);
    let prices = duals(&[(0, 10), (1, 0), (2, 0), (3, 0)]);
    let none = BTreeSet::new();
    let mut search = Search::start(&pricer);
    search.pop(&pricer);
    search.expand(&pricer, &prices, &none, 0).unwrap();
    search.relax(&pricer, &prices, &none, 2, 3).unwrap();
    search.relax(&pricer, &prices, &none, 3, 4).unwrap();
    assert_eq!(search.label(4).last_node, 4);
    assert_eq!(root_of(&search, 4), 0);
    search.relax(&pricer, &prices, &none, 1, 3).unwrap();
    assert_eq!(search.stage(3), Stage::Removed);
    assert_eq!(root_of(&search, 4), 3);
    let (path, _) = pricer.path_from_label(&search, 4);
    assert_eq!(path, vec![3, 4]);
}

fn dense(elementary: bool) -> Pricer {
    let mut pricer = Pricer::new(
        vec![0, 2, 1, 3, 1, 0],
        vec![(0, 50), (0, 50), (3, 50), (0, 50), (0, 50), (0, 50)],
        vec![0, 1, 0, 2, 1, 0],
        6,
        vec![1, 2, 3, 4],
        0,
        5,
        square(
            6,
            &[
                (0, 1, 2),
                (0, 2, 1),
                (0, 3, 4),
                (1, 2, 1),
                (2, 1, 1),
                (1, 3, 1),
                (2, 3, 2),
                (3, 4, 1),
                (1, 4, 5),
                (2, 4, 3),
                (4, 5, 1),
                (3, 5, 3),
            ],
        ),
        succ(&[
            (0, vec![1, 2, 3]),
            (1, vec![2, 3, 4]),
            (2, vec![1, 3, 4]),
            (3, vec![4, 5]),
            (4, vec![5]),
        ]),
    )
    .unwrap();
    pricer.set_elementary(elementary);
    pricer
}

#[test]
fn frontiers_away_from_the_end_depot_are_antichains() {
    let prices = duals(&[(0, 0), (1, 3), (2, 1), (3, 4), (4, 2)]);
    let none = BTreeSet::new();
    for elementary in [false, true] {
        let pricer = dense(elementary);
        let mut search = Search::start(&pricer);
        while let Some(p) = search.pop(&pricer) {
            search.expand(&pricer, &prices, &none, p).unwrap();
            for v in 0..5 {
                let bag = search.frontier(&pricer, v);
                for a in bag.iter() {
                    for b in bag.iter() {
                        if a != b {
                            assert!(!pricer.dominates(search.label(*a), search.label(*b)));
                        }
                    }
                }
            }
        }
        assert!(search.len() > 6);
        for j in 0..search.len() {
            if search.stage(j) == Stage::Removed {
                assert_eq!(search.pred(j), None);
            } else {
                assert_eq!(search.stage(j), Stage::Expanded);
                assert!(search.frontier(&pricer, search.label(j).last_node).contains(&j));
            }
            assert_eq!(search.label(j).id, j);
        }
        assert_eq!(search.pop(&pricer), None);
    }
}

#[test]
fn labels_at_the_end_depot_are_kept_though_dominated() {
    let pricer = Pricer::new(
        vec![0, 0, 0, 0],
        vec![(0, 100); 4],
        vec![0; 4],
        10,
        vec![1, 2],
        0,
        3,
        square(4, &[(0, 1, 1), (0, 2, 1), (1, 3, 1), (2, 3, 1)]),
        succ(&[(0, vec![1, 2]), (1, vec![3]), (2, vec![3])]),
    )
    .unwrap();
    let prices = duals(&[(0, 10), (1, 5), (2, 0)]);
    let routes = pricer.find_path(&prices, &BTreeSet::new()).unwrap();
    assert_eq!(routes.len(), 2);
    assert_eq!(routes[0].path, vec![0, 1, 3]);
    assert_eq!(routes[0].reduced_cost, -13 * RCOST_SCALE);
    assert_eq!(routes[1].path, vec![0, 2, 3]);
    assert_eq!(routes[1].reduced_cost, -8 * RCOST_SCALE);
    assert_eq!(routes[0].start_times, routes[1].start_times);
}

#[test]
fn elementary_mode_may_keep_a_path_that_the_relaxed_mode_prunes() {
    let mut pricer = two_ways(1, 2);
    let prices = duals(&[(0, 10), (1, 0), (2, 0), (3, 0)]);
    let relaxed = pricer.find_path(&prices, &BTreeSet::new()).unwrap();
    let relaxed_paths: Vec<Vec<usize>> = relaxed.iter().map(|r| r.path.clone()).collect();
    assert_eq!(relaxed_paths, vec![vec![0, 1, 3, 4]]);
    pricer.set_elementary(true);
    let elementary = pricer.find_path(&prices, &BTreeSet::new()).unwrap();
    let elementary_paths: Vec<Vec<usize>> = elementary.iter().map(|r| r.path.clone()).collect();
    assert_eq!(elementary_paths, vec![vec![0, 1, 3, 4], vec![0, 2, 3, 4]]);
}

#[test]
fn insert_and_retire_work_on_their_own() {
    let pricer = two_ways(1, 2);
    let mut search = Search::start(&pricer);
    assert_eq!(search.pop(&pricer), Some(0));
    let mut seen = BitSet::new();
    seen.insert(1);
    search.insert(&pricer, Label::new(1, 1, 1, 5, 1, 4, seen.clone()), 0);
    search.insert(&pricer, Label::new(2, 1, 1, 3, 2, 4, seen.clone()), 0);
    assert_eq!(search.len(), 3);
    assert_eq!(search.frontier(&pricer, 1), &vec![1, 2]);
    assert_eq!(search.pred(2), Some(0));
    assert_eq!(search.stage(2), Stage::Queued);
    let better = Label::new(9, 1, 1, 4, 1, 4, seen.clone());
    search.retire(&pricer, &better);
    assert_eq!(search.stage(1), Stage::Removed);
    assert_eq!(search.pred(1), None);
    assert_eq!(search.stage(2), Stage::Queued);
    assert_eq!(search.frontier(&pricer, 1), &vec![2]);
    search.insert(&pricer, Label::new(3, 1, 1, 2, 2, 3, seen), 0);
    assert_eq!(search.stage(2), Stage::Removed);
    assert_eq!(search.frontier(&pricer, 1), &vec![3]);
    assert_eq!(search.pop(&pricer), Some(3));
    assert_eq!(search.pop(&pricer), None);
}
