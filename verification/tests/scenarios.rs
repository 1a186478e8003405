use rs_pricing::error::PricingError;
use rs_pricing::extension::RCOST_SCALE;
use rs_pricing::instance::Pricer;
use rs_pricing::route::Route;
use std::collections::{BTreeMap, BTreeSet};

fn units(travel_time: i64) -> i64 {
    travel_time * (RCOST_SCALE as i64)
}

fn succ(lists: Vec<(usize, Vec<usize>)>) -> BTreeMap<usize, Vec<usize>> {
    let mut map = BTreeMap::new();
    for (u, list) in lists {
        map.insert(u, list);
    }
    map
}

fn duals(prices: Vec<(usize, i64)>) -> BTreeMap<usize, i64> {
    let mut map = BTreeMap::new();
    for (u, price) in prices {
        map.insert(u, units(price));
    }
    map
}

fn square(n: usize, arcs: Vec<(usize, usize, usize)>) -> Vec<Vec<usize>> {
    let mut drive = vec![vec![0usize; n]; n];
    for (u, v, d) in arcs {
        drive[u][v] = d;
    }
    drive
}

fn diamond(drive_0_2: usize, window_2: (usize, usize)) -> Pricer {
    Pricer::new(
        vec![0, 1, 1, 0],
        vec![(0, 1000), (0, 1000), window_2, (0, 1000)],
        vec![0, 0, 0, 0],
        100,
        vec![1, 2],
        0,
        3,
        square(4, vec![(0, 1, 1), (0, 2, drive_0_2), (1, 3, 1), (2, 3, 1)]),
        succ(vec![(0, vec![1, 2]), (1, vec![3]), (2, vec![3])]),
    )
    .unwrap()
}

fn paths(routes: &Vec<Route>) -> Vec<Vec<usize>> {
    routes.iter().map(|r| r.path.clone()).collect()
}

#[test]
fn trivial_instance_gives_its_one_path() {
    let pricer = Pricer::new(
        vec![0, 0],
        vec![(0, 100), (0, 100)],
        vec![0, 0],
        10,
        vec![],
        0,
        1,
        vec![vec![0, 10], vec![10, 0]],
        succ(vec![(0, vec![1])]),
    )
    .unwrap();
    let routes = pricer.find_path(&duals(vec![(0, 20)]), &BTreeSet::new()).unwrap();
    assert_eq!(routes.len(), 1);
    assert_eq!(routes[0].path, vec![0, 1]);
    assert_eq!(routes[0].start_times, vec![0, 10]);
    assert_eq!(routes[0].cost, 10);
    assert_eq!(routes[0].reduced_cost, -10 * RCOST_SCALE);
}

#[test]
fn dominance_prunes_the_longer_branch_of_a_diamond() {
    let pricer = diamond(2, (0, 1000));
    let routes = pricer
        .find_path(&duals(vec![(0, 10), (1, 0), (2, 0)]), &BTreeSet::new())
        .unwrap();
    assert_eq!(routes.len(), 1);
    assert_eq!(routes[0].path, vec![0, 1, 3]);
    assert_eq!(routes[0].start_times, vec![0, 1, 2]);
    assert_eq!(routes[0].cost, 2);
    assert_eq!(routes[0].reduced_cost, -8 * RCOST_SCALE);
}

#[test]
fn zero_duals_price_nothing_out() {
    let pricer = diamond(2, (0, 1000));
    let routes = pricer
        .find_path(&duals(vec![(0, 0), (1, 0), (2, 0)]), &BTreeSet::new())
        .unwrap();
    assert!(routes.is_empty());
}

#[test]
fn closed_window_cuts_a_branch() {
    let pricer = diamond(5, (0, 0));
    let routes = pricer
        .find_path(&duals(vec![(0, 10), (1, 0), (2, 0)]), &BTreeSet::new())
        .unwrap();
    assert_eq!(paths(&routes), vec![vec![0, 1, 3]]);
}

#[test]
fn window_opening_delays_service() {
    let pricer = Pricer::new(
        vec![0, 0, 0],
        vec![(3, 100), (20, 100), (0, 100)],
        vec![2, 4, 0],
        10,
        vec![1],
        0,
        2,
        square(3, vec![(0, 1, 5), (1, 2, 7)]),
        succ(vec![(0, vec![1]), (1, vec![2])]),
    )
    .unwrap();
    let routes = pricer.find_path(&duals(vec![(0, 10), (1, 10)]), &BTreeSet::new()).unwrap();
    assert_eq!(routes.len(), 1);
    assert_eq!(routes[0].path, vec![0, 1, 2]);
    assert_eq!(routes[0].start_times, vec![3, 20, 31]);
    assert_eq!(routes[0].cost, 12);
    assert_eq!(routes[0].reduced_cost, -8 * RCOST_SCALE);
}

#[test]
fn capacity_cuts_every_path() {
    let pricer = Pricer::new(
        vec![0, 8, 0],
        vec![(0, 100), (0, 100), (0, 100)],
        vec![0, 0, 0],
        5,
        vec![1],
        0,
        2,
        square(3, vec![(0, 1, 1), (1, 2, 1)]),
        succ(vec![(0, vec![1]), (1, vec![2])]),
    )
    .unwrap();
    let routes = pricer.find_path(&duals(vec![(0, 50), (1, 50)]), &BTreeSet::new()).unwrap();
    assert!(routes.is_empty());
}

fn two_ways_to_the_sink() -> Pricer {
    Pricer::new(
        vec![0, 1, 0],
        vec![(0, 100), (0, 100), (0, 100)],
        vec![0, 0, 0],
        5,
        vec![1],
        0,
        2,
        square(3, vec![(0, 1, 1), (1, 2, 1), (0, 2, 5)]),
        succ(vec![(0, vec![1, 2]), (1, vec![2])]),
    )
    .unwrap()
}

#[test]
fn forbidden_arc_leaves_the_other_way() {
    let pricer = two_ways_to_the_sink();
    let prices = duals(vec![(0, 10), (1, 10)]);
    let free = pricer.find_path(&prices, &BTreeSet::new()).unwrap();
    assert_eq!(paths(&free), vec![vec![0, 1, 2], vec![0, 2]]);
    let mut forbidden = BTreeSet::new();
    forbidden.insert((1usize, 2usize));
    let routes = pricer.find_path(&prices, &forbidden).unwrap();
    assert_eq!(routes.len(), 1);
    assert_eq!(routes[0].path, vec![0, 2]);
    assert_eq!(routes[0].start_times, vec![0, 5]);
    assert_eq!(routes[0].cost, 5);
    assert_eq!(routes[0].reduced_cost, -5 * RCOST_SCALE);
}

#[test]
fn forbidden_first_arc_cuts_all_that_follows() {
    let pricer = two_ways_to_the_sink();
    let mut forbidden = BTreeSet::new();
    forbidden.insert((0usize, 1usize));
    forbidden.insert((0usize, 2usize));
    let routes = pricer.find_path(&duals(vec![(0, 10), (1, 10)]), &forbidden).unwrap();
    assert!(routes.is_empty());
}

fn with_a_cycle() -> Pricer {
    Pricer::new(
        vec![0, 1, 1, 0],
        vec![(0, 1000), (0, 1000), (0, 1000), (0, 1000)],
        vec![0, 0, 0, 0],
        100,
        vec![1, 2],
        0,
        3,
        square(4, vec![(0, 1, 1), (1, 2, 1), (2, 1, 1), (1, 3, 1), (2, 3, 1)]),
        succ(vec![(0, vec![1]), (1, vec![2, 3]), (2, vec![1, 3])]),
    )
    .unwrap()
}

#[test]
fn negative_cycle_is_never_followed_twice() {
    let mut pricer = with_a_cycle();
    let prices = duals(vec![(0, 0), (1, 5), (2, 5)]);
    assert!(!pricer.get_elementary());
    let relaxed = pricer.find_path(&prices, &BTreeSet::new()).unwrap();
    assert_eq!(paths(&relaxed), vec![vec![0, 1, 2, 3], vec![0, 1, 3]]);
    assert_eq!(relaxed[0].reduced_cost, -7 * RCOST_SCALE);
    assert_eq!(relaxed[1].reduced_cost, -3 * RCOST_SCALE);
    pricer.set_elementary(true);
    assert!(pricer.get_elementary());
    let elementary = pricer.find_path(&prices, &BTreeSet::new()).unwrap();
    assert_eq!(paths(&elementary), paths(&relaxed));
    for route in elementary.iter() {
        let mut seen = route.path.clone();
        seen.sort();
        seen.dedup();
        assert_eq!(seen.len(), route.path.len());
    }
}

#[test]
fn same_inputs_give_the_same_routes() {
    let pricer = with_a_cycle();
    let prices = duals(vec![(0, 0), (1, 5), (2, 5)]);
    let first = pricer.find_path(&prices, &BTreeSet::new()).unwrap();
    let second = pricer.find_path(&prices, &BTreeSet::new()).unwrap();
    assert_eq!(first.len(), second.len());
    for (a, b) in first.iter().zip(second.iter()) {
        assert_eq!(a.path, b.path);
        assert_eq!(a.start_times, b.start_times);
        assert_eq!(a.cost, b.cost);
        assert_eq!(a.reduced_cost, b.reduced_cost);
    }
}

#[test]
fn routes_come_out_in_lexicographic_order() {
    let pricer = Pricer::new(
        vec![0, 0, 0, 0],
        vec![(0, 100), (0, 100), (0, 100), (0, 100)],
        vec![0, 0, 0, 0],
        10,
        vec![1, 2],
        0,
        3,
        square(4, vec![(0, 2, 1), (0, 1, 2), (2, 3, 4), (1, 3, 1), (0, 3, 9)]),
        succ(vec![(0, vec![3, 2, 1]), (1, vec![3]), (2, vec![3])]),
    )
    .unwrap();
    let routes = pricer
        .find_path(&duals(vec![(0, 20), (1, 0), (2, 3)]), &BTreeSet::new())
        .unwrap();
    assert_eq!(paths(&routes), vec![vec![0, 1, 3], vec![0, 2, 3], vec![0, 3]]);
}

#[test]
fn every_route_is_priced_out_and_consistent() {
    let pricer = with_a_cycle();
    let prices = duals(vec![(0, 0), (1, 5), (2, 5)]);
    let drive = square(4, vec![(0, 1, 1), (1, 2, 1), (2, 1, 1), (1, 3, 1), (2, 3, 1)]);
    let routes = pricer.find_path(&prices, &BTreeSet::new()).unwrap();
    assert!(!routes.is_empty());
    for route in routes.iter() {
        assert!(route.reduced_cost < -1000);
        assert_eq!(route.path[0], 0);
        assert_eq!(*route.path.last().unwrap(), 3);
        assert_eq!(route.start_times.len(), route.path.len());
        let mut cost = 0usize;
        let mut rcost = 0i128;
        for i in 0..route.path.len() - 1 {
            let (u, v) = (route.path[i], route.path[i + 1]);
            cost += drive[u][v];
            rcost += RCOST_SCALE * (drive[u][v] as i128) - (prices[&u] as i128);
            assert_eq!(route.start_times[i + 1], route.start_times[i] + drive[u][v]);
        }
        assert_eq!(route.cost, cost);
        assert_eq!(route.reduced_cost, rcost);
    }
}

#[test]
fn reduced_cost_at_the_threshold_is_not_priced_out() {
    let pricer = Pricer::new(
        vec![0, 0],
        vec![(0, 100), (0, 100)],
        vec![0, 0],
        10,
        vec![],
        0,
        1,
        vec![vec![0, 10], vec![10, 0]],
        succ(vec![(0, vec![1])]),
    )
    .unwrap();
    let mut at = BTreeMap::new();
    at.insert(0usize, units(10) + 1000);
    assert!(pricer.find_path(&at, &BTreeSet::new()).unwrap().is_empty());
    let mut below = BTreeMap::new();
    below.insert(0usize, units(10) + 1001);
    let routes = pricer.find_path(&below, &BTreeSet::new()).unwrap();
    assert_eq!(routes.len(), 1);
    assert_eq!(routes[0].reduced_cost, -1001);
}

#[test]
fn missing_dual_stops_the_search() {
    let pricer = diamond(2, (0, 1000));
    let priced = pricer.find_path(&duals(vec![(0, 10), (1, 0)]), &BTreeSet::new());
    assert!(matches!(priced, Err(PricingError::MissingDual(2))));
    let none = pricer.find_path(&BTreeMap::new(), &BTreeSet::new());
    assert!(matches!(none, Err(PricingError::MissingDual(0))));
}

#[test]
fn dual_of_a_node_without_arcs_is_not_needed() {
    let pricer = diamond(2, (0, 1000));
    let priced = pricer.find_path(&duals(vec![(0, 10), (1, 0), (2, 0)]), &BTreeSet::new());
    assert!(priced.is_ok());
}

#[test]
fn dual_of_a_node_whose_arcs_are_all_forbidden_is_not_needed() {
    let pricer = two_ways_to_the_sink();
    let mut forbidden = BTreeSet::new();
    forbidden.insert((1usize, 2usize));
    let routes = pricer.find_path(&duals(vec![(0, 10)]), &forbidden).unwrap();
    assert_eq!(paths(&routes), vec![vec![0, 2]]);
}

#[test]
fn new_refuses_what_does_not_fit() {
    let build = |demands: Vec<usize>,
                 windows: Vec<(usize, usize)>,
                 service: Vec<usize>,
                 customers: Vec<usize>,
                 start: usize,
                 end: usize,
                 drive: Vec<Vec<usize>>,
                 lists: Vec<(usize, Vec<usize>)>| {
        Pricer::new(demands, windows, service, 10, customers, start, end, drive, succ(lists))
    };
    let ok = build(
        vec![0, 0],
        vec![(0, 1), (0, 1)],
        vec![0, 0],
        vec![],
        0,
        1,
        vec![vec![0, 1], vec![1, 0]],
        vec![(0, vec![1])],
    );
    assert!(ok.is_ok());
    let cases = vec![
        build(vec![0, 0], vec![(0, 1)], vec![0, 0], vec![], 0, 1, vec![vec![0, 1], vec![1, 0]], vec![]),
        build(vec![0, 0], vec![(0, 1), (0, 1)], vec![0], vec![], 0, 1, vec![vec![0, 1], vec![1, 0]], vec![]),
        build(vec![0, 0], vec![(0, 1), (0, 1)], vec![0, 0], vec![], 0, 1, vec![vec![0, 1]], vec![]),
        build(vec![0, 0], vec![(0, 1), (0, 1)], vec![0, 0], vec![], 0, 1, vec![vec![0, 1], vec![1]], vec![]),
        build(vec![0, 0], vec![(0, 1), (0, 1)], vec![0, 0], vec![], 2, 1, vec![vec![0, 1], vec![1, 0]], vec![]),
        build(vec![0, 0], vec![(0, 1), (0, 1)], vec![0, 0], vec![], 0, 2, vec![vec![0, 1], vec![1, 0]], vec![]),
        build(vec![0, 0], vec![(0, 1), (0, 1)], vec![0, 0], vec![2], 0, 1, vec![vec![0, 1], vec![1, 0]], vec![]),
        build(
            vec![0, 0],
            vec![(0, 1), (0, 1)],
            vec![0, 0],
            vec![],
            0,
            1,
            vec![vec![0, 1], vec![1, 0]],
            vec![(0, vec![1, 2])],
        ),
        build(vec![], vec![], vec![], vec![], 0, 0, vec![], vec![]),
    ];
    for made in cases {
        assert!(matches!(made, Err(PricingError::InstanceShape)));
    }
}

#[test]
fn start_and_end_may_coincide() {
    let pricer = Pricer::new(
        vec![0, 1],
        vec![(0, 100), (0, 100)],
        vec![0, 0],
        10,
        vec![1],
        0,
        0,
        vec![vec![0, 1], vec![1, 0]],
        succ(vec![(0, vec![1]), (1, vec![0])]),
    )
    .unwrap();
    let routes = pricer.find_path(&duals(vec![(0, 5), (1, 5)]), &BTreeSet::new()).unwrap();
    assert_eq!(paths(&routes), vec![vec![0, 1, 0]]);
    assert_eq!(routes[0].reduced_cost, -8 * RCOST_SCALE);
}

fn detour_without_cost() -> Pricer {
    Pricer::new(
        vec![0, 1, 0, 0],
        vec![(0, 100), (0, 100), (0, 100), (0, 100)],
        vec![0, 0, 0, 0],
        10,
        vec![1, 2],
        0,
        3,
        square(4, vec![(0, 1, 1), (0, 2, 1), (2, 1, 0), (1, 3, 1)]),
        succ(vec![(0, vec![2, 1]), (1, vec![3]), (2, vec![1])]),
    )
    .unwrap()
}

#[test]
fn route_through_a_retired_label_is_left_out() {
    let mut pricer = detour_without_cost();
    let prices = duals(vec![(0, 10), (1, 0), (2, 3)]);
    let relaxed = pricer.find_path(&prices, &BTreeSet::new()).unwrap();
    assert_eq!(relaxed.len(), 1);
    assert_eq!(relaxed[0].path, vec![0, 2, 1, 3]);
    assert_eq!(relaxed[0].start_times, vec![0, 1, 1, 2]);
    assert_eq!(relaxed[0].cost, 2);
    assert_eq!(relaxed[0].reduced_cost, -11 * RCOST_SCALE);
    pricer.set_elementary(true);
    let elementary = pricer.find_path(&prices, &BTreeSet::new()).unwrap();
    assert_eq!(paths(&elementary), vec![vec![0, 1, 3], vec![0, 2, 1, 3]]);
    assert_eq!(elementary[0].reduced_cost, -8 * RCOST_SCALE);
}
