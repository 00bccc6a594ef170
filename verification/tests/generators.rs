use combigen::combinations::{combinations, combinations_map};
use combigen::combinations_with_replacement::{
    combinations_with_replacement, combinations_with_replacement_map,
};
use combigen::multi_product::{multi_cartesian_product, multi_cartesian_product_map};
use combigen::powerset::{powerset, powerset_map};

#[test]
fn combinations_three_choose_two() {
    let mut c = combinations(vec![1, 2, 3], 2);
    assert_eq!(c.next(), Some(vec![1, 2]));
    assert_eq!(c.next(), Some(vec![1, 3]));
    assert_eq!(c.next(), Some(vec![2, 3]));
    assert_eq!(c.next(), None);
    assert_eq!(c.next(), None);
}

#[test]
fn combinations_five_choose_three_full_order() {
    let mut c = combinations(vec![0, 1, 2, 3, 4], 3);
    let expected = [
        [0, 1, 2],
        [0, 1, 3],
        [0, 1, 4],
        [0, 2, 3],
        [0, 2, 4],
        [0, 3, 4],
        [1, 2, 3],
        [1, 2, 4],
        [1, 3, 4],
        [2, 3, 4],
    ];
    for want in expected {
        assert_eq!(c.next(), Some(want.to_vec()));
    }
    assert_eq!(c.next(), None);
}

#[test]
fn combinations_of_empty_source() {
    let mut c = combinations(Vec::<u8>::new(), 1);
    assert_eq!(c.next(), None);
    assert_eq!(c.next(), None);
}

#[test]
fn combinations_size_zero_yields_one_empty() {
    let mut c = combinations(vec![1, 2, 3], 0);
    assert_eq!(c.next(), Some(vec![]));
    assert_eq!(c.next(), None);
}

#[test]
fn combinations_k_too_large() {
    let mut c = combinations(vec![1, 2], 5);
    assert_eq!(c.k(), 5);
    assert_eq!(c.next(), None);
    assert_eq!(c.next(), None);
}

#[test]
fn combinations_pulls_lazily() {
    let c = combinations(vec![1, 2, 3, 4, 5], 2);
    // Construction prefills exactly k elements, no more.
    assert_eq!(c.n(), 2);
    let mut c = c;
    assert_eq!(c.next(), Some(vec![1, 2]));
    assert_eq!(c.n(), 2);
    assert_eq!(c.next(), Some(vec![1, 3]));
    // One more element was pulled to see whether the space grew.
    assert_eq!(c.n(), 3);
    assert_eq!(c.k(), 2);
}

#[test]
fn combinations_size_hint_counts_down() {
    let mut c = combinations(vec![0, 1, 2, 3, 4], 3);
    assert_eq!(c.size_hint(), (10, Some(10)));
    c.next();
    assert_eq!(c.size_hint(), (9, Some(9)));
    while c.next().is_some() {}
    assert_eq!(c.size_hint(), (0, Some(0)));
}

#[test]
fn generators_clone_for_branching() {
    let mut c = combinations(vec![1, 2, 3], 2);
    assert_eq!(c.next(), Some(vec![1, 2]));
    let mut branch = c.clone();
    assert_eq!(c.next(), Some(vec![1, 3]));
    assert_eq!(branch.next(), Some(vec![1, 3]));
    assert_eq!(branch.next(), Some(vec![2, 3]));
    assert_eq!(c.next(), Some(vec![2, 3]));
    let mut m = multi_cartesian_product(vec![vec![0, 1], vec![2, 3]]);
    m.next();
    let mut mb = m.clone();
    assert_eq!(m.next(), mb.next());
}

#[test]
fn combinations_map_sums_windows() {
    let mut c = combinations_map(vec![1, 2, 3], 2, |w: &Vec<i32>| w.iter().sum::<i32>());
    assert_eq!(c.next(), Some(3));
    assert_eq!(c.next(), Some(4));
    assert_eq!(c.next(), Some(5));
    assert_eq!(c.next(), None);
}

#[test]
fn cwr_two_of_two() {
    let mut c = combinations_with_replacement(vec![1, 2], 2);
    assert_eq!(c.next(), Some(vec![1, 1]));
    assert_eq!(c.next(), Some(vec![1, 2]));
    assert_eq!(c.next(), Some(vec![2, 2]));
    assert_eq!(c.next(), None);
    assert_eq!(c.next(), None);
}

#[test]
fn cwr_three_of_two() {
    let mut c = combinations_with_replacement(vec![0, 1], 3);
    assert_eq!(c.next(), Some(vec![0, 0, 0]));
    assert_eq!(c.next(), Some(vec![0, 0, 1]));
    assert_eq!(c.next(), Some(vec![0, 1, 1]));
    assert_eq!(c.next(), Some(vec![1, 1, 1]));
    assert_eq!(c.next(), None);
}

#[test]
fn cwr_size_zero_yields_one_empty() {
    let mut c = combinations_with_replacement(vec![1, 2], 0);
    assert_eq!(c.next(), Some(vec![]));
    assert_eq!(c.next(), None);
}

#[test]
fn cwr_of_empty_source() {
    let mut c = combinations_with_replacement(Vec::<u8>::new(), 2);
    assert_eq!(c.next(), None);
    assert_eq!(c.next(), None);
}

#[test]
fn cwr_size_hint_counts_down() {
    let mut c = combinations_with_replacement(vec![1, 2], 2);
    assert_eq!(c.size_hint(), (3, Some(3)));
    c.next();
    c.next();
    assert_eq!(c.size_hint(), (1, Some(1)));
    let c0 = combinations_with_replacement(vec![1, 2, 3], 0);
    assert_eq!(c0.size_hint(), (1, Some(1)));
}

#[test]
fn cwr_map_sums_windows() {
    let mut c =
        combinations_with_replacement_map(vec![1, 2], 2, |w: &Vec<i32>| w.iter().sum::<i32>());
    assert_eq!(c.next(), Some(2));
    assert_eq!(c.next(), Some(3));
    assert_eq!(c.next(), Some(4));
    assert_eq!(c.next(), None);
}

#[test]
fn powerset_of_two() {
    let mut p = powerset(vec![1, 2]);
    assert_eq!(p.next(), Some(vec![]));
    assert_eq!(p.next(), Some(vec![1]));
    assert_eq!(p.next(), Some(vec![2]));
    assert_eq!(p.next(), Some(vec![1, 2]));
    assert_eq!(p.next(), None);
    assert_eq!(p.next(), None);
}

#[test]
fn powerset_of_three_sizes_nondecreasing() {
    let mut p = powerset(vec![1, 2, 3]);
    let mut count = 0u32;
    let mut prev_len = 0usize;
    while let Some(s) = p.next() {
        assert!(s.len() >= prev_len);
        prev_len = s.len();
        count += 1;
    }
    assert_eq!(count, 8);
}

#[test]
fn powerset_of_empty_source() {
    let mut p = powerset(Vec::<u8>::new());
    assert_eq!(p.next(), Some(vec![]));
    assert_eq!(p.next(), None);
    assert_eq!(p.next(), None);
}

#[test]
fn powerset_size_hint_counts_down() {
    let mut p = powerset(vec![1, 2, 3]);
    assert_eq!(p.size_hint(), (8, Some(8)));
    p.next();
    assert_eq!(p.size_hint(), (7, Some(7)));
}

#[test]
fn powerset_map_measures_subsets() {
    let mut p = powerset_map(vec![4, 5], |w: &Vec<i32>| w.len());
    assert_eq!(p.next(), Some(0));
    assert_eq!(p.next(), Some(1));
    assert_eq!(p.next(), Some(1));
    assert_eq!(p.next(), Some(2));
    assert_eq!(p.next(), None);
}

#[test]
fn multi_product_two_lanes() {
    let mut m = multi_cartesian_product(vec![vec![0, 1], vec![2, 3]]);
    assert_eq!(m.next(), Some(vec![0, 2]));
    assert_eq!(m.next(), Some(vec![0, 3]));
    assert_eq!(m.next(), Some(vec![1, 2]));
    assert_eq!(m.next(), Some(vec![1, 3]));
    assert_eq!(m.next(), None);
    assert_eq!(m.next(), None);
}

#[test]
fn multi_product_empty_lane_gives_nothing() {
    let mut m = multi_cartesian_product(vec![vec![1, 2], vec![]]);
    assert_eq!(m.next(), None);
    assert_eq!(m.next(), None);
}

#[test]
fn multi_product_no_lanes_gives_nothing() {
    let mut m = multi_cartesian_product(Vec::<Vec<u8>>::new());
    assert_eq!(m.next(), None);
}

#[test]
fn multi_product_single_lane() {
    let mut m = multi_cartesian_product(vec![vec![7]]);
    assert_eq!(m.next(), Some(vec![7]));
    assert_eq!(m.next(), None);
}

#[test]
fn multi_product_three_lanes_last_fastest() {
    let mut m = multi_cartesian_product(vec![vec![0, 1], vec![10], vec![20, 21]]);
    assert_eq!(m.next(), Some(vec![0, 10, 20]));
    assert_eq!(m.next(), Some(vec![0, 10, 21]));
    assert_eq!(m.next(), Some(vec![1, 10, 20]));
    assert_eq!(m.next(), Some(vec![1, 10, 21]));
    assert_eq!(m.next(), None);
}

#[test]
fn multi_product_count_and_size_hint() {
    let m = multi_cartesian_product(vec![vec![1, 2], vec![3, 4, 5]]);
    assert_eq!(m.size_hint(), (6, Some(6)));
    assert_eq!(m.count(), 6);
    let mut m = multi_cartesian_product(vec![vec![1, 2], vec![3, 4, 5]]);
    m.next();
    assert_eq!(m.size_hint(), (5, Some(5)));
    assert_eq!(m.count(), 5);
}

#[test]
fn multi_product_count_with_empty_lane() {
    let m = multi_cartesian_product(vec![vec![1, 2], vec![]]);
    assert_eq!(m.count(), 0);
}

#[test]
fn multi_product_last() {
    let m = multi_cartesian_product(vec![vec![1, 2], vec![3, 4, 5]]);
    assert_eq!(m.last(), Some(vec![2, 5]));
    let m = multi_cartesian_product(vec![vec![1, 2], vec![]]);
    assert_eq!(m.last(), None);
}

#[test]
fn multi_product_map_pairs_to_sums() {
    let mut m = multi_cartesian_product_map(vec![vec![1, 2], vec![10, 20]], |w: &Vec<i32>| {
        w.iter().sum::<i32>()
    });
    assert_eq!(m.next(), Some(11));
    assert_eq!(m.next(), Some(21));
    assert_eq!(m.next(), Some(12));
    assert_eq!(m.next(), Some(22));
    assert_eq!(m.next(), None);
}
