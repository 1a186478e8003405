use rs_pricing::extension::{RCOST_EPSILON, RCOST_SCALE};
use rs_pricing::instance::Pricer;
use std::collections::{BTreeMap, BTreeSet};

struct Dice(u64);

impl Dice {
    fn roll(&mut self, below: u64) -> u64 {
        self.0 = self.0.wrapping_mul(6364136223846793005).wrapping_add(1442695040888963407);
        (self.0 >> 33) % below
    }
}

struct Case {
    n: usize,
    demands: Vec<usize>,
    windows: Vec<(usize, usize)>,
    service: Vec<usize>,
    capacity: usize,
    drive: Vec<Vec<usize>>,
    succ: BTreeMap<usize, Vec<usize>>,
    duals: BTreeMap<usize, i64>,
    forbidden: BTreeSet<(usize, usize)>,
}

fn draw(dice: &mut Dice) -> Case {
    let n = 3 + dice.roll(4) as usize;
    let mut demands: Vec<usize> = (0..n).map(|_| dice.roll(4) as usize).collect();
    demands[0] = 0;
    demands[n - 1] = 0;
    let windows = (0..n)
        .map(|_| {
            let e = dice.roll(6) as usize;
            (e, e + dice.roll(12) as usize)
        })
        .collect();
    let service = (0..n).map(|_| dice.roll(3) as usize).collect();
    let drive = (0..n).map(|_| (0..n).map(|_| dice.roll(5) as usize).collect()).collect();
    let mut succ = BTreeMap::new();
    let mut forbidden = BTreeSet::new();
    for u in 0..n - 1 {
        let mut list = Vec::new();
        for v in 1..n {
            if v != u && dice.roll(3) > 0 {
                list.push(v);
                if dice.roll(8) == 0 {
                    forbidden.insert((u, v));
                }
            }
        }
        if !list.is_empty() || dice.roll(2) == 0 {
            succ.insert(u, list);
        }
    }
    let mut duals = BTreeMap::new();
    for u in 0..n {
        duals.insert(u, (dice.roll(9) as i64 - 2) * (RCOST_SCALE as i64) / 2);
    }
    Case {
        n,
        demands,
        windows,
        service,
        capacity: 3 + dice.roll(5) as usize,
        drive,
        succ,
        duals,
        forbidden,
    }
}

fn pricer(case: &Case, elementary: bool) -> Pricer {
    let mut made = Pricer::new(
        case.demands.clone(),
        case.windows.clone(),
        case.service.clone(),
        case.capacity,
        (1..case.n - 1).collect(),
        0,
        case.n - 1,
        case.drive.clone(),
        case.succ.clone(),
    )
    .unwrap();
    made.set_elementary(elementary);
    made
}

// All feasible paths from the start depot to the end depot, with their reduced costs.
fn walk(
    case: &Case,
    path: &mut Vec<usize>,
    etime: usize,
    demand: usize,
    rcost: i128,
    found: &mut Vec<(Vec<usize>, i128)>,
) {
    let u = *path.last().unwrap();
    if u == case.n - 1 && path.len() > 1 {
        found.push((path.clone(), rcost));
    }
    let Some(list) = case.succ.get(&u) else {
        return;
    };
    for v in list {
        if path[1..].contains(v) || case.forbidden.contains(&(u, *v)) {
            continue;
        }
        let d = case.drive[u][*v];
        let start = std::cmp::max(etime + case.service[u] + d, case.windows[*v].0);
        let load = demand + case.demands[*v];
        if start > case.windows[*v].1 || load > case.capacity {
            continue;
        }
        path.push(*v);
        let step = RCOST_SCALE * (d as i128) - (case.duals[&u] as i128);
        walk(case, path, start, load, rcost + step, found);
        path.pop();
    }
}

fn check(case: &Case, elementary: bool, all: &Vec<(Vec<usize>, i128)>) {
    let routes = pricer(case, elementary)
        .find_path(&case.duals, &case.forbidden)
        .unwrap();
    for pair in routes.windows(2) {
        assert!(pair[0].path <= pair[1].path);
    }
    for route in routes.iter() {
        assert!(route.reduced_cost < -RCOST_EPSILON);
        let same: Vec<&(Vec<usize>, i128)> = all.iter().filter(|(p, _)| *p == route.path).collect();
        assert_eq!(same.len(), 1);
        assert_eq!(same[0].1, route.reduced_cost);
        assert_eq!(route.start_times.len(), route.path.len());
        assert_eq!(route.start_times[0], case.windows[0].0);
        let mut cost = 0;
        for i in 0..route.path.len() - 1 {
            let (u, v) = (route.path[i], route.path[i + 1]);
            cost += case.drive[u][v];
            let arrival = route.start_times[i] + case.service[u] + case.drive[u][v];
            assert_eq!(route.start_times[i + 1], std::cmp::max(arrival, case.windows[v].0));
            assert!(route.start_times[i + 1] <= case.windows[v].1);
        }
        assert_eq!(route.cost, cost);
    }
    if elementary {
        let best = all.iter().map(|(_, r)| *r).min();
        let priced = routes.iter().map(|r| r.reduced_cost).min();
        match best {
            Some(least) if least < -RCOST_EPSILON => assert_eq!(priced, Some(least)),
            _ => assert!(routes.is_empty()),
        }
    }
}

#[test]
fn drawn_instances_give_valid_routes_and_the_least_reduced_cost() {
    let mut dice = Dice(20240607);
    let mut with_routes = 0;
    for _ in 0..400 {
        let case = draw(&mut dice);
        let mut all = Vec::new();
        walk(&case, &mut vec![0], case.windows[0].0, 0, 0, &mut all);
        if all.iter().any(|(_, r)| *r < -RCOST_EPSILON) {
            with_routes += 1;
        }
        check(&case, false, &all);
        check(&case, true, &all);
    }
    assert!(with_routes > 50);
}
