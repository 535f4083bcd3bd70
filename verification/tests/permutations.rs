use bruteforce::permutations;

fn factorial(n: usize) -> usize {
    let mut product = 1;
    for k in 1..=n {
        product *= k;
    }
    product
}

#[test]
fn no_points_give_one_empty_order() {
    assert_eq!(permutations(0), vec![Vec::<usize>::new()]);
}

#[test]
fn one_point_gives_one_order() {
    assert_eq!(permutations(1), vec![vec![0]]);
}

#[test]
fn two_points_put_the_new_index_first_then_last() {
    assert_eq!(permutations(2), vec![vec![1, 0], vec![0, 1]]);
}

#[test]
fn three_points_come_in_insertion_order() {
    assert_eq!(
        permutations(3),
        vec![
            vec![2, 1, 0],
            vec![2, 0, 1],
            vec![1, 2, 0],
            vec![0, 2, 1],
            vec![1, 0, 2],
            vec![0, 1, 2],
        ]
    );
}

#[test]
fn four_points_start_with_the_new_index_in_front() {
    let perms = permutations(4);
    assert_eq!(
        perms[..6].to_vec(),
        vec![
            vec![3, 2, 1, 0],
            vec![3, 2, 0, 1],
            vec![3, 1, 2, 0],
            vec![3, 0, 2, 1],
            vec![3, 1, 0, 2],
            vec![3, 0, 1, 2],
        ]
    );
    assert_eq!(perms[6], vec![2, 3, 1, 0]);
    assert_eq!(perms[23], vec![0, 1, 2, 3]);
}

#[test]
fn count_is_the_factorial() {
    for n in 0..7 {
        assert_eq!(permutations(n).len(), factorial(n), "n = {}", n);
    }
    assert_eq!(permutations(6).len(), 720);
}

#[test]
fn orders_are_pairwise_distinct() {
    for n in 0..7 {
        let perms = permutations(n);
        for a in 0..perms.len() {
            for b in (a + 1)..perms.len() {
                assert_ne!(perms[a], perms[b], "n = {}, entries {} and {}", n, a, b);
            }
        }
    }
}

#[test]
fn every_order_holds_each_index_once() {
    for n in 0..7 {
        for order in permutations(n) {
            assert_eq!(order.len(), n);
            let mut seen = vec![false; n];
            for &index in &order {
                assert!(index < n);
                assert!(!seen[index], "index {} twice in {:?}", index, order);
                seen[index] = true;
            }
            assert!(seen.iter().all(|&s| s));
        }
    }
}

#[test]
fn every_order_of_three_points_is_listed() {
    let perms = permutations(3);
    for wanted in [[0, 1, 2], [0, 2, 1], [1, 0, 2], [1, 2, 0], [2, 0, 1], [2, 1, 0]] {
        assert!(perms.contains(&wanted.to_vec()), "{:?} is missing", wanted);
    }
}

#[test]
fn longer_orders_extend_the_shorter_ones() {
    let shorter = permutations(4);
    let longer = permutations(5);
    for at in 0..5 {
        for (j, order) in shorter.iter().enumerate() {
            let mut expected = order.clone();
            expected.insert(at, 4);
            assert_eq!(longer[at * shorter.len() + j], expected);
        }
    }
}
