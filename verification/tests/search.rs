use bruteforce::{brute_force_tsp, permutations, tour_legs};

fn distance(a: (f64, f64), b: (f64, f64)) -> f64 {
    f64::sqrt((b.0 - a.0).powi(2) + (b.1 - a.1).powi(2))
}

fn legs_length(points: &[(f64, f64)], legs: &[(usize, usize)]) -> f64 {
    let mut total = 0.0;
    for &(from, to) in legs {
        total += distance(points[from], points[to]);
    }
    total
}

fn tour_length(points: &[(f64, f64)], order: &Vec<usize>) -> f64 {
    legs_length(points, &tour_legs(order))
}

fn solve(points: &[(f64, f64)]) -> (f64, Vec<usize>) {
    let best = brute_force_tsp(points.len(), f64::INFINITY.to_bits(), |legs: &Vec<(usize, usize)>| {
        legs_length(points, legs).to_bits()
    });
    (f64::from_bits(best.length_key), best.order)
}

fn traces_the_square(order: &[usize]) -> bool {
    let forward = [0usize, 1, 2, 3];
    let backward = [3usize, 2, 1, 0];
    (0..4).any(|k| {
        (0..4).all(|i| order[i] == forward[(i + k) % 4])
            || (0..4).all(|i| order[i] == backward[(i + k) % 4])
    })
}

#[test]
fn no_points_give_length_zero_and_no_order() {
    let (length, order) = solve(&[]);
    assert_eq!(length, 0.0);
    assert_eq!(order, Vec::<usize>::new());
}

#[test]
fn one_point_gives_length_zero() {
    let (length, order) = solve(&[(5.0, 7.0)]);
    assert_eq!(length, 0.0);
    assert_eq!(order, vec![0]);
}

#[test]
fn two_points_are_twice_their_distance() {
    let (length, order) = solve(&[(0.0, 0.0), (3.0, 4.0)]);
    assert_eq!(length, 10.0);
    assert_eq!(order, vec![1, 0]);
}

#[test]
fn unit_square_is_walked_along_its_sides() {
    let (length, order) = solve(&[(0.0, 0.0), (0.0, 1.0), (1.0, 1.0), (1.0, 0.0)]);
    assert_eq!(length, 4.0);
    assert!(traces_the_square(&order), "{:?} crosses the square", order);
    assert_eq!(order, vec![3, 2, 1, 0]);
}

#[test]
fn triangle_is_the_sum_of_its_sides() {
    let points = [(0.0, 0.0), (3.0, 0.0), (0.0, 4.0)];
    let (length, order) = solve(&points);
    assert_eq!(length, 12.0);
    assert_eq!(order, vec![2, 1, 0]);
    for order in permutations(3) {
        assert_eq!(tour_length(&points, &order), 12.0);
    }
}

#[test]
fn rectangle_is_walked_along_its_sides() {
    let points = [(0.0, 0.0), (4.0, 0.0), (4.0, 3.0), (0.0, 3.0)];
    let (length, order) = solve(&points);
    assert_eq!(length, 14.0);
    assert_eq!(order, vec![3, 2, 1, 0]);
    assert_eq!(tour_length(&points, &vec![0, 2, 1, 3]), 16.0);
    assert_eq!(tour_length(&points, &vec![0, 1, 3, 2]), 18.0);
}

#[test]
fn eight_points_scenario() {
    let points = [
        (1.0, 2.0),
        (7.0, 11.0),
        (3.0, 23.0),
        (2.0, 80.0),
        (9.0, 2.0),
        (19.0, 11.0),
        (29.0, 23.0),
        (1.0, 80.0),
    ];
    let (length, order) = solve(&points);
    assert_eq!(length, 181.64635291723516);
    assert_eq!(order, vec![1, 2, 7, 3, 6, 5, 4, 0]);
}

#[test]
fn result_is_no_longer_than_any_tour() {
    let points = [(0.0, 0.0), (2.0, 5.0), (6.0, 1.0), (3.0, 3.0), (1.0, 4.0)];
    let (length, order) = solve(&points);
    assert_eq!(tour_length(&points, &order), length);
    for candidate in permutations(points.len()) {
        assert!(length <= tour_length(&points, &candidate));
    }
}

#[test]
fn rotated_order_has_the_same_length() {
    let points = [(0.0, 0.0), (4.0, 0.0), (4.0, 3.0), (0.0, 3.0)];
    for order in [vec![0, 1, 2, 3], vec![0, 2, 1, 3], vec![0, 1, 3, 2]] {
        let length = tour_length(&points, &order);
        for k in 0..4 {
            let mut turned = order.clone();
            turned.rotate_left(k);
            assert_eq!(tour_length(&points, &turned), length);
        }
    }
}

#[test]
fn reversed_order_has_the_same_length() {
    let points = [(0.0, 0.0), (4.0, 0.0), (4.0, 3.0), (0.0, 3.0)];
    for order in [vec![0, 1, 2, 3], vec![0, 2, 1, 3], vec![0, 1, 3, 2]] {
        let mut back = order.clone();
        back.reverse();
        assert_eq!(tour_length(&points, &back), tour_length(&points, &order));
    }
}

#[test]
fn equal_keys_keep_the_first_order() {
    let best = brute_force_tsp(4, 100, |_legs: &Vec<(usize, usize)>| 7);
    assert_eq!(best.length_key, 7);
    assert_eq!(best.order, vec![3, 2, 1, 0]);
}

#[test]
fn nothing_below_the_bound_leaves_the_record_empty() {
    let best = brute_force_tsp(3, 7, |_legs: &Vec<(usize, usize)>| 7);
    assert_eq!(best.length_key, 7);
    assert_eq!(best.order, Vec::<usize>::new());
}

#[test]
fn every_order_is_measured_once_by_its_legs() {
    let seen = std::cell::RefCell::new(Vec::new());
    let best = brute_force_tsp(3, u64::MAX, |legs: &Vec<(usize, usize)>| {
        seen.borrow_mut().push(legs.clone());
        (legs[0].0 * 9 + legs[1].0 * 3 + legs[2].0) as u64
    });
    let expected: Vec<Vec<(usize, usize)>> = permutations(3).iter().map(tour_legs).collect();
    assert_eq!(seen.into_inner(), expected);
    assert_eq!(best.length_key, 5);
    assert_eq!(best.order, vec![0, 1, 2]);
}
