use tsp_hill::city::{distance, City, SCALE};
use tsp_hill::construct::construct;
use tsp_hill::engine::{ConfigError, Optimizer};
use tsp_hill::ops::{cross_half_swap, full_shuffle, mirror_swap, move_to_end, move_to_start};
use tsp_hill::rng::new_rng;
use tsp_hill::tour::tour_from;

fn city(x: i64, y: i64) -> City {
    City {
        x,
        y,
        name: Vec::new(),
    }
}

/// The four corners of the unit square, in fixed-point units.
fn square() -> Vec<City> {
    vec![
        city(0, 0),
        city(0, SCALE),
        city(SCALE, SCALE),
        city(SCALE, 0),
    ]
}

#[test]
fn distance_symmetric() {
    let pts = vec![
        city(0, 0),
        city(30_000, 40_000),
        city(-12_345, 6_789),
        city(SCALE, -SCALE),
    ];
    for a in &pts {
        for b in &pts {
            assert_eq!(distance(a, b), distance(b, a));
        }
    }
}

#[test]
fn distance_exact_values() {
    // a 3-4-5 triangle in fixed-point units
    assert_eq!(distance(&city(0, 0), &city(30_000, 40_000)), 50_000);
    // the diagonal of the unit square, rounded down
    assert_eq!(distance(&city(0, 0), &city(SCALE, SCALE)), 14_142);
    // distance to self is zero
    assert_eq!(distance(&city(7, -9), &city(7, -9)), 0);
    // sqrt(2) rounds down to 1 on the smallest grid step
    assert_eq!(distance(&city(0, 0), &city(1, 1)), 1);
}

#[test]
fn tour_total_matches_recomputed_sum() {
    let cities = square();
    for order in [vec![0usize, 1, 2, 3], vec![0usize, 2, 1, 3]] {
        let t = tour_from(&cities, order.clone());
        let mut sum = 0u64;
        for i in 0..order.len() {
            let j = (i + 1) % order.len();
            sum += distance(&cities[order[i]], &cities[order[j]]);
        }
        assert_eq!(t.total, sum);
    }
}

#[test]
fn tour_total_unit_square() {
    let cities = square();
    let t = tour_from(&cities, vec![0, 1, 2, 3]);
    assert_eq!(t.total, 4 * SCALE as u64);
    let crossing = tour_from(&cities, vec![0, 2, 1, 3]);
    assert_eq!(crossing.total, 2 * SCALE as u64 + 2 * 14_142);
}

fn is_permutation_of(r: &[usize], orig: &[usize]) -> bool {
    let mut a = r.to_vec();
    let mut b = orig.to_vec();
    a.sort();
    b.sort();
    a == b
}

#[test]
fn mirror_swap_exact_and_permutation() {
    let ord = vec![0usize, 1, 2, 3, 4];
    let r = mirror_swap(&ord, 1);
    assert_eq!(r, vec![0, 3, 2, 1, 4]);
    assert!(is_permutation_of(&r, &ord));
}

#[test]
fn cross_half_swap_exact_and_permutation() {
    let ord = vec![10usize, 11, 12, 13, 14];
    let r = cross_half_swap(&ord, 0, 4);
    assert_eq!(r, vec![14, 11, 12, 13, 10]);
    assert!(is_permutation_of(&r, &ord));
}

#[test]
fn move_to_end_exact_and_permutation() {
    let ord = vec![0usize, 1, 2, 3, 4];
    let r = move_to_end(&ord, 1);
    assert_eq!(r, vec![0, 2, 3, 4, 1]);
    assert!(is_permutation_of(&r, &ord));
}

#[test]
fn move_to_start_exact_and_permutation() {
    let ord = vec![0usize, 1, 2, 3, 4];
    // remove the city at index 3 and insert it just before the midpoint
    let r = move_to_start(&ord, 3);
    assert_eq!(r, vec![0, 3, 1, 2, 4]);
    assert!(is_permutation_of(&r, &ord));
}

#[test]
fn full_shuffle_is_permutation() {
    let ord: Vec<usize> = (0..20).collect();
    let mut rng = new_rng();
    let r = full_shuffle(&ord, &mut rng);
    assert!(is_permutation_of(&r, &ord));
}

#[test]
fn construct_sorts_halves_toward_anchors() {
    let cities = square();
    // first half kept (anchor is its own first city), second half sorted by
    // ascending distance to the first half's last city
    let t = construct(&cities, &vec![0, 1, 2, 3]);
    assert_eq!(t.order, vec![0, 1, 2, 3]);
    assert_eq!(t.total, 4 * SCALE as u64);
    // a tie between the two second-half cities keeps their original order
    let t2 = construct(&cities, &vec![0, 2, 1, 3]);
    assert_eq!(t2.order, vec![0, 2, 1, 3]);
}

#[test]
fn construct_returns_permutation() {
    let cities = square();
    let t = construct(&cities, &vec![3, 1, 0, 2]);
    assert!(is_permutation_of(&t.order, &[0, 1, 2, 3]));
}

#[test]
fn startup_rejects_zero_population() {
    let r = Optimizer::new(square(), 0);
    assert_eq!(r.err(), Some(ConfigError::ZeroPopulation));
}

#[test]
fn startup_rejects_too_few_cities() {
    let r = Optimizer::new(vec![city(0, 0)], 10);
    assert_eq!(r.err(), Some(ConfigError::TooFewCities));
    let r2 = Optimizer::new(Vec::new(), 10);
    assert_eq!(r2.err(), Some(ConfigError::TooFewCities));
}

#[test]
fn startup_rejects_oversized_city_set() {
    let mut cities = Vec::new();
    for i in 0..1_000_001u32 {
        cities.push(city((i % 1000) as i64, 0));
    }
    let r = Optimizer::new(cities, 1);
    assert_eq!(r.err(), Some(ConfigError::TooManyCities));
}

#[test]
fn startup_rejects_bad_coordinate() {
    let mut cities = square();
    cities.push(city(2_000_000_000, 0));
    let r = Optimizer::new(cities, 10);
    assert_eq!(r.err(), Some(ConfigError::BadCoordinate));
}

#[test]
fn initial_best_is_population_minimum() {
    let opt = Optimizer::new(square(), 8).unwrap();
    let min = opt.population.iter().map(|t| t.total).min().unwrap();
    assert_eq!(opt.best_distance(), min);
}

#[test]
fn step_never_worsens_members_or_best() {
    let mut opt = Optimizer::new(square(), 3).unwrap();
    for _ in 0..200 {
        let before: Vec<u64> = opt.population.iter().map(|t| t.total).collect();
        let best_before = opt.best_distance();
        let reported = opt.step();
        let after: Vec<u64> = opt.population.iter().map(|t| t.total).collect();
        for (b, a) in before.iter().zip(after.iter()) {
            assert!(a <= b);
        }
        assert!(opt.best_distance() <= best_before);
        match reported {
            Some(d) => {
                assert_eq!(d, opt.best_distance());
                assert!(d < best_before);
            }
            None => assert_eq!(opt.best_distance(), best_before),
        }
    }
}

#[test]
fn unit_square_converges_to_optimal() {
    let mut opt = Optimizer::new(square(), 1).unwrap();
    let optimal = 4 * SCALE as u64;
    assert!(opt.best_distance() >= optimal);
    for _ in 0..5000 {
        opt.step();
        assert!(opt.best_distance() >= optimal);
        if opt.best_distance() == optimal {
            break;
        }
    }
    assert_eq!(opt.best_distance(), optimal);
}
