use rand::rngs::StdRng;
use rand::seq::SliceRandom;
use rand::SeedableRng;
use tsp_ga::fitness::{isqrt, City};
use tsp_ga::perm::invert_permutation;
use tsp_ga::tsp::{Path, Rate, Simulation};

fn rng(seed: u64) -> StdRng {
    StdRng::seed_from_u64(seed)
}

fn is_perm(v: &[usize]) -> bool {
    let n = v.len();
    let mut seen = vec![false; n];
    for &x in v {
        if x >= n || seen[x] {
            return false;
        }
        seen[x] = true;
    }
    true
}

fn shuffled(n: usize, r: &mut StdRng) -> Vec<usize> {
    let mut v: Vec<usize> = (0..n).collect();
    v.shuffle(r);
    v
}

fn cities3() -> Vec<City> {
    vec![City { x: 0, y: 0 }, City { x: 3, y: 0 }, City { x: 3, y: 4 }]
}

fn square_cities() -> Vec<City> {
    vec![
        City { x: 0, y: 0 },
        City { x: 10, y: 0 },
        City { x: 10, y: 10 },
        City { x: 0, y: 10 },
        City { x: 5, y: 5 },
        City { x: 2, y: 7 },
    ]
}

fn half() -> Rate {
    Rate { num: 1, den: 2 }
}

#[test]
fn fitness_exact_small_example() {
    // Cities at (0,0), (3,0), (3,4): the open path (3,0) -> (0,0) -> (3,4)
    // walks edges of length 3 and 5, total 8, so the fitness is exactly
    // 1/8 = 0.125.
    let cities = cities3();
    let order: Vec<usize> = vec![1, 0, 2];
    let f = Path::calculate_fitness(&order, &cities);
    assert_eq!(f.denom, 8);
    assert_eq!(1.0f64 / (f.denom as f64), 0.125);
    // The same cities visited in index order walk edges 3 and 4.
    let f2 = Path::calculate_fitness(&vec![0, 1, 2], &cities);
    assert_eq!(f2.denom, 7);
}

#[test]
fn fitness_rounds_distances_down() {
    // Edge (0,0)-(1,1) has length sqrt(2); the integer edge length is 1.
    let cities = vec![City { x: 0, y: 0 }, City { x: 1, y: 1 }];
    let f = Path::calculate_fitness(&vec![0, 1], &cities);
    assert_eq!(f.denom, 1);
}

#[test]
fn fitness_coincident_cities_is_degenerate() {
    // All edges of length zero: the zero denominator stands for the
    // degenerate highest fitness.
    let cities = vec![City { x: 5, y: 5 }, City { x: 5, y: 5 }];
    let f = Path::calculate_fitness(&vec![1, 0], &cities);
    assert_eq!(f.denom, 0);
    // A single city has no edges at all: the same sentinel.
    let one = vec![City { x: 7, y: 9 }];
    assert_eq!(Path::calculate_fitness(&vec![0], &one).denom, 0);
}

#[test]
fn isqrt_exact_values() {
    assert_eq!(isqrt(0), 0);
    assert_eq!(isqrt(1), 1);
    assert_eq!(isqrt(8), 2);
    assert_eq!(isqrt(9), 3);
    assert_eq!(isqrt(10), 3);
    assert_eq!(isqrt(u64::MAX), 4294967295);
}

#[test]
fn single_point_crossover_yields_permutations() {
    let mut r = rng(11);
    for n in 1..=9usize {
        for _ in 0..20 {
            let mother = shuffled(n, &mut r);
            let father = shuffled(n, &mut r);
            let child = Path::single_point_crossover(&mother, &father, &mut r);
            assert!(is_perm(&child), "n={} child={:?}", n, child);
        }
    }
}

#[test]
fn uniform_order_crossover_yields_permutations() {
    let mut r = rng(12);
    for n in 1..=9usize {
        for _ in 0..20 {
            let mother = shuffled(n, &mut r);
            let father = shuffled(n, &mut r);
            let child = Path::uniform_order_crossover(&mother, &father, &mut r);
            assert!(is_perm(&child), "n={} child={:?}", n, child);
        }
    }
}

#[test]
fn partially_mapped_crossover_yields_permutations() {
    let mut r = rng(13);
    for n in 1..=9usize {
        for _ in 0..20 {
            let mother = shuffled(n, &mut r);
            let father = shuffled(n, &mut r);
            let child = Path::partially_mapped_crossover(&mother, &father, &mut r);
            assert!(is_perm(&child), "n={} child={:?}", n, child);
        }
    }
}

#[test]
fn single_point_crossover_matches_head_plus_remainder() {
    let mut r = rng(21);
    for n in 1..=8usize {
        for _ in 0..10 {
            let mother = shuffled(n, &mut r);
            let father = shuffled(n, &mut r);
            let child = Path::single_point_crossover(&mother, &father, &mut r);
            // Some cut reproduces the child exactly: the mother's head,
            // then the father's genes with the head's genes left out.
            let ok = (0..n).any(|k| {
                let head = &mother[..k];
                let mut full = head.to_vec();
                full.extend(father.iter().copied().filter(|g| !head.contains(g)));
                full == child
            });
            assert!(ok, "n={} child={:?}", n, child);
        }
    }
}

#[test]
fn uniform_order_crossover_copies_half_from_mother() {
    let mut r = rng(22);
    for n in 1..=9usize {
        for _ in 0..10 {
            let mother = shuffled(n, &mut r);
            let father = shuffled(n, &mut r);
            let child = Path::uniform_order_crossover(&mother, &father, &mut r);
            let same = (0..n).filter(|&p| child[p] == mother[p]).count();
            assert!(same >= n / 2, "n={} child={:?}", n, child);
        }
    }
}

#[test]
fn crossover_of_identical_parents_is_identity() {
    let mut r = rng(23);
    for n in 1..=8usize {
        let m = shuffled(n, &mut r);
        assert_eq!(Path::single_point_crossover(&m, &m.clone(), &mut r), m);
        assert_eq!(Path::uniform_order_crossover(&m, &m.clone(), &mut r), m);
        assert_eq!(Path::partially_mapped_crossover(&m, &m.clone(), &mut r), m);
    }
}

#[test]
fn breed_yields_wellformed_child() {
    let cities = square_cities();
    let mut r = rng(14);
    for _ in 0..30 {
        let a = Path::new_random(&cities, &mut r);
        let b = Path::new_random(&cities, &mut r);
        let child = a.breed(&b, &cities, &mut r);
        assert!(is_perm(child.order()));
        assert_eq!(
            child.fitness().denom,
            Path::calculate_fitness(child.order(), &cities).denom
        );
    }
}

#[test]
fn mutate_preserves_permutation_and_fitness() {
    let cities = square_cities();
    let mut r = rng(15);
    for _ in 0..30 {
        let mut p = Path::new_random(&cities, &mut r);
        p.mutate(&cities, &mut r);
        assert!(is_perm(p.order()));
        assert_eq!(
            p.fitness().denom,
            Path::calculate_fitness(p.order(), &cities).denom
        );
    }
}

#[test]
fn generate_children_preserves_population_size() {
    let zero = Rate { num: 0, den: 1 };
    let one = Rate { num: 1, den: 1 };
    let rates = [zero, half(), one];
    for &population_size in &[4usize, 10, 50] {
        for &crossover in &rates {
            for &survival in &rates {
                let mut sim = Simulation::new(
                    square_cities(),
                    population_size,
                    1,
                    crossover,
                    half(),
                    survival,
                    42,
                );
                sim.generate_children();
                assert_eq!(sim.population().len(), population_size);
            }
        }
    }
}

#[test]
fn generation_members_stay_wellformed() {
    let mut sim = Simulation::new(square_cities(), 10, 1, half(), Rate { num: 1, den: 1 }, half(), 5);
    sim.generate_children();
    let cities = sim.city_list().clone();
    for member in sim.population() {
        assert!(is_perm(member.order()));
        assert_eq!(
            member.fitness().denom,
            Path::calculate_fitness(member.order(), &cities).denom
        );
    }
}

#[test]
fn zero_iterations_returns_initial_fittest_unchanged() {
    let mut sim = Simulation::new(square_cities(), 8, 0, half(), half(), half(), 7);
    let initial_orders: Vec<Vec<usize>> =
        sim.population().iter().map(|p| p.order().clone()).collect();
    let initial_best = sim
        .population()
        .iter()
        .map(|p| p.fitness().denom)
        .min()
        .unwrap();
    let best = sim.run();
    assert_eq!(best.fitness().denom, initial_best);
    assert!(sim
        .population()
        .iter()
        .any(|p| p.order() == best.order() && p.fitness().denom == best.fitness().denom));
    let after_orders: Vec<Vec<usize>> =
        sim.population().iter().map(|p| p.order().clone()).collect();
    assert_eq!(after_orders, initial_orders);
    assert_eq!(sim.champions().len(), 0);
}

#[test]
fn champion_never_worse_than_generation_zero() {
    let mut sim = Simulation::new(square_cities(), 12, 25, half(), half(), half(), 99);
    let initial_best = sim
        .population()
        .iter()
        .map(|p| p.fitness().denom)
        .min()
        .unwrap();
    let best = sim.run();
    assert!(best.fitness().denom <= initial_best);
    assert_eq!(sim.champions().len(), 25);
    for champ in sim.champions() {
        assert!(champ.fitness().denom >= best.fitness().denom);
        assert!(is_perm(champ.order()));
    }
    assert!(is_perm(best.order()));
}

#[test]
fn trace_positions_round_trip() {
    let mut r = rng(16);
    for n in 1..=12usize {
        let order = shuffled(n, &mut r);
        let positions = invert_permutation(&order);
        assert!(is_perm(&positions));
        let back = invert_permutation(&positions);
        assert_eq!(back, order);
    }
}

#[test]
fn path_positions_match_inverse() {
    let cities = square_cities();
    let mut r = rng(17);
    let p = Path::new_random(&cities, &mut r);
    let positions = p.positions();
    for (pos, &city) in p.order().iter().enumerate() {
        assert_eq!(positions[city], pos);
    }
}

#[test]
fn rate_scale_floors() {
    assert_eq!(Rate { num: 9, den: 10 }.scale(50), 45);
    assert_eq!(half().scale(5), 2);
    assert_eq!(Rate { num: 0, den: 1 }.scale(7), 0);
    assert_eq!(Rate { num: 1, den: 1 }.scale(7), 7);
    assert_eq!(Rate { num: 333, den: 1000 }.scale(10), 3);
}
