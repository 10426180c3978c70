use kona_rs::k::K;
use kona_rs::va::{
    ceiling, dot, each, equals, find, find_all, first, floor_verb, gather, grade_down, grade_up,
    kona_where, less, match_k, minus, more, negate, over, plus, reverse, scan, take, times,
    transpose, unique,
};

fn ints(k: &K) -> Vec<i64> {
    k.ki_data().to_vec()
}

fn rows(k: &K) -> Vec<Vec<i64>> {
    k.kk_data().iter().map(|r| r.ki_data().to_vec()).collect()
}

fn matrix(m: &[&[i64]]) -> K {
    K::from_list(m.iter().map(|r| K::from_ints(r.to_vec())).collect())
}

#[test]
fn test_first() {
    let res = first(&K::ki(42));
    assert_eq!((res.t, ints(&res)), (-1, vec![42]));
    let res = first(&K::from_ints(vec![10, 20, 30]));
    assert_eq!((res.t, ints(&res)), (-1, vec![10]));
    let res = first(&K::from_list(vec![K::from_ints(vec![1, 2]), K::from_ints(vec![3, 4])]));
    assert_eq!((res.t, ints(&res)), (1, vec![1, 2]));
}

#[test]
fn first_of_empty_values() {
    let res = first(&K::from_ints(vec![]));
    assert_eq!((res.t, ints(&res)), (-1, vec![0]));
    let res = first(&K::from_list(vec![]));
    assert_eq!((res.t, res.n), (0, 0));
}

#[test]
fn test_reverse() {
    let res = reverse(&K::ki(42));
    assert_eq!((res.t, ints(&res)), (-1, vec![42]));
    let res = reverse(&K::from_ints(vec![1, 2, 3]));
    assert_eq!((res.t, ints(&res)), (1, vec![3, 2, 1]));
    let res = reverse(&K::from_list(vec![K::from_ints(vec![1, 2]), K::from_ints(vec![3, 4])]));
    assert_eq!(res.t, 0);
    assert_eq!(rows(&res), vec![vec![3, 4], vec![1, 2]]);
}

#[test]
fn reverse_twice_is_identity() {
    let x = K::from_ints(vec![5, -1, 7, 7]);
    assert_eq!(ints(&reverse(&reverse(&x))), vec![5, -1, 7, 7]);
}

#[test]
fn test_unique_atoms() {
    let res = unique(&K::ki(42));
    assert_eq!((res.t, ints(&res)), (-1, vec![42]));
}

#[test]
fn unique_is_idempotent() {
    let once = unique(&K::from_ints(vec![3, 1, 3, 2, 1]));
    assert_eq!(ints(&once), vec![3, 1, 2]);
    assert_eq!(ints(&unique(&once)), vec![3, 1, 2]);
}

#[test]
fn test_over() {
    let x = K::from_ints(vec![1, 2, 3]);
    let res = over(plus, None, &x);
    assert_eq!((res.t, ints(&res)), (-1, vec![6]));
    let res = over(plus, Some(&K::ki(10)), &x);
    assert_eq!((res.t, ints(&res)), (-1, vec![16]));
}

#[test]
fn over_times_multiplies_integers() {
    let res = over(times, None, &K::from_ints(vec![1, 2, 3, 4]));
    assert_eq!((res.t, ints(&res)), (-1, vec![24]));
}

#[test]
fn dot_is_over_plus_of_times() {
    let a = K::from_ints(vec![1, 2, 3]);
    let b = K::from_ints(vec![4, 5, 6]);
    assert_eq!(ints(&dot(&a, &b)), ints(&over(plus, None, &times(&a, &b))));
}

#[test]
fn scan_ends_with_over() {
    let x = K::from_ints(vec![4, -2, 9]);
    let s = scan(plus, Some(&K::ki(1)), &x);
    let o = over(plus, Some(&K::ki(1)), &x);
    assert_eq!(ints(&s), vec![5, 3, 12]);
    assert_eq!(*ints(&s).last().unwrap(), ints(&o)[0]);
}

#[test]
fn test_each() {
    let res = each(negate, &K::from_ints(vec![1, 2, 3]));
    assert_eq!((res.t, ints(&res)), (1, vec![-1, -2, -3]));
}

#[test]
fn negate_twice_is_identity() {
    let x = K::from_list(vec![K::ki(3), K::from_ints(vec![-4, 0])]);
    let back = negate(&negate(&x));
    assert_eq!(match_k(&back, &x).ki_data(), &[1]);
}

#[test]
fn arithmetic_broadcasts_atoms() {
    let a = K::from_ints(vec![1, 2, 3]);
    let b = K::from_ints(vec![4, 5, 6]);
    assert_eq!(ints(&plus(&a, &b)), vec![5, 7, 9]);
    assert_eq!(ints(&minus(&b, &a)), vec![3, 3, 3]);
    assert_eq!(ints(&times(&a, &b)), vec![4, 10, 18]);
    let r = plus(&K::ki(10), &a);
    assert_eq!((r.t, ints(&r)), (1, vec![11, 12, 13]));
    let r = plus(&K::ki(2), &K::ki(3));
    assert_eq!((r.t, ints(&r)), (-1, vec![5]));
}

#[test]
fn plus_and_times_commute() {
    let a = K::from_ints(vec![1, -2, 3]);
    let b = K::ki(7);
    assert_eq!(ints(&plus(&a, &b)), ints(&plus(&b, &a)));
    assert_eq!(ints(&times(&a, &b)), ints(&times(&b, &a)));
}

#[test]
fn plus_maps_over_lists() {
    let l = K::from_list(vec![K::ki(1), K::from_ints(vec![2, 3])]);
    let r = plus(&l, &K::ki(10));
    assert_eq!(r.t, 0);
    let items = r.kk_data();
    assert_eq!(ints(&items[0]), vec![11]);
    assert_eq!(ints(&items[1]), vec![12, 13]);
}

#[test]
fn comparisons_give_booleans() {
    let a = K::from_ints(vec![1, 2, 3]);
    let b = K::from_ints(vec![4, 2, 1]);
    assert_eq!(ints(&less(&a, &b)), vec![1, 0, 0]);
    assert_eq!(ints(&more(&a, &b)), vec![0, 0, 1]);
    assert_eq!(ints(&equals(&a, &K::from_ints(vec![1, 0, 3]))), vec![1, 0, 1]);
    assert_eq!(ints(&less(&a, &b)), ints(&more(&b, &a)));
    assert_eq!(ints(&equals(&a, &b)), ints(&equals(&b, &a)));
}

#[test]
fn comparisons_go_through_doubles() {
    let big = K::ki(9_007_199_254_740_992);
    let next = K::ki(9_007_199_254_740_993);
    assert_eq!(ints(&equals(&big, &next)), vec![1]);
    assert_eq!(ints(&less(&big, &next)), vec![0]);
    assert_eq!(ints(&more(&next, &big)), vec![0]);
    assert_eq!(ints(&less(&K::ki(-5), &K::ki(4))), vec![1]);
}

#[test]
fn floor_and_ceiling_of_integers() {
    let x = K::from_ints(vec![-3, 0, 7]);
    assert_eq!(ints(&floor_verb(&x)), vec![-3, 0, 7]);
    assert_eq!(ints(&ceiling(&x)), vec![-3, 0, 7]);
    assert_eq!(ints(&floor_verb(&K::ki(9_007_199_254_740_993))), vec![9_007_199_254_740_992]);
    assert_eq!(ints(&floor_verb(&K::ki(i64::MAX))), vec![i64::MAX]);
    assert_eq!(ints(&ceiling(&K::ki(i64::MIN))), vec![i64::MIN]);
}

#[test]
fn dot_of_integers() {
    let a = K::from_ints(vec![1, 2, 3]);
    let b = K::from_ints(vec![4, 5, 6]);
    let r = dot(&a, &b);
    assert_eq!((r.t, ints(&r)), (-1, vec![32]));
    assert_eq!(ints(&dot(&K::ki(2), &a)), vec![12]);
}

#[test]
fn match_is_structural() {
    let a = K::from_list(vec![K::from_ints(vec![1, 2]), K::ki(3)]);
    let b = K::from_list(vec![K::from_ints(vec![1, 2]), K::ki(3)]);
    assert_eq!(ints(&match_k(&a, &b)), vec![1]);
    assert_eq!(ints(&match_k(&a, &a)), vec![1]);
    let c = K::from_list(vec![K::from_ints(vec![1, 2]), K::ki(4)]);
    assert_eq!(ints(&match_k(&a, &c)), vec![0]);
    assert_eq!(ints(&match_k(&K::ki(1), &K::from_ints(vec![1]))), vec![1]);
}

#[test]
fn take_cycles_from_either_end() {
    let x = K::from_ints(vec![10, 20, 30]);
    assert_eq!(ints(&take(&K::ki(5), &x)), vec![10, 20, 30, 10, 20]);
    assert_eq!(ints(&take(&K::ki(-5), &x)), vec![20, 30, 10, 20, 30]);
    assert_eq!(ints(&take(&K::ki(2), &x)), vec![10, 20]);
    assert_eq!(ints(&take(&K::ki(-2), &x)), vec![20, 30]);
    assert_eq!(ints(&take(&K::ki(3), &x)), vec![10, 20, 30]);
    let r = take(&K::ki(0), &K::from_ints(vec![]));
    assert_eq!((r.t, r.n), (1, 0));
    let r = take(&K::ki(3), &K::ki(7));
    assert_eq!((r.t, ints(&r)), (1, vec![7, 7, 7]));
}

#[test]
fn transpose_twice_is_identity() {
    let m = matrix(&[&[1, 2], &[3, 4], &[5, 6]]);
    let t = transpose(&m);
    assert_eq!(rows(&t), vec![vec![1, 3, 5], vec![2, 4, 6]]);
    assert_eq!(rows(&transpose(&t)), vec![vec![1, 2], vec![3, 4], vec![5, 6]]);
    assert_eq!(transpose(&K::from_list(vec![])).n, 0);
}

#[test]
fn gather_picks_rows() {
    let table = matrix(&[&[1, 2], &[3, 4], &[5, 6]]);
    let r = gather(&K::from_ints(vec![2, 0, 2]), &table);
    assert_eq!(rows(&r), vec![vec![5, 6], vec![1, 2], vec![5, 6]]);
    let batch = gather(&K::from_list(vec![K::from_ints(vec![1]), K::from_ints(vec![0])]), &table);
    let items = batch.kk_data();
    assert_eq!(rows(&items[0]), vec![vec![3, 4]]);
    assert_eq!(rows(&items[1]), vec![vec![1, 2]]);
}

#[test]
fn find_returns_length_when_absent() {
    let x = K::from_ints(vec![10, 20, 30, 20]);
    assert_eq!(ints(&find(&x, &K::ki(20))), vec![1]);
    assert_eq!(ints(&find(&x, &K::ki(40))), vec![4]);
    let l = K::from_list(vec![K::from_ints(vec![1, 2]), K::ki(3)]);
    assert_eq!(ints(&find(&l, &K::ki(3))), vec![1]);
    assert_eq!(ints(&find(&l, &K::ki(9))), vec![2]);
}

#[test]
fn find_all_looks_up_each_element() {
    let a = K::from_ints(vec![5, 6, 5, 7]);
    let b = K::from_ints(vec![7, 5, 8]);
    assert_eq!(ints(&find_all(&a, &b)), vec![3, 0, 4]);
}

#[test]
fn where_expands_counts() {
    assert_eq!(ints(&kona_where(&K::from_ints(vec![0, 1, 0, 2]))), vec![1, 3, 3]);
    assert_eq!(ints(&kona_where(&K::from_ints(vec![3, 0, 1]))), vec![0, 0, 0, 2]);
    assert_eq!(ints(&kona_where(&K::from_ints(vec![-2, 1]))), vec![1]);
}

#[test]
fn grades_are_stable_sorting_permutations() {
    let x = K::from_ints(vec![30, 10, 20]);
    assert_eq!(ints(&grade_up(&x)), vec![1, 2, 0]);
    assert_eq!(ints(&grade_down(&x)), vec![0, 2, 1]);
    let ties = K::from_ints(vec![3, 1, 3, 2]);
    assert_eq!(ints(&grade_up(&ties)), vec![1, 3, 0, 2]);
    assert_eq!(ints(&grade_down(&ties)), vec![0, 2, 3, 1]);
}

#[test]
fn grade_up_orders_lists() {
    let l = K::from_list(vec![K::from_ints(vec![2, 1]), K::from_ints(vec![1, 5]), K::from_ints(vec![1, 2])]);
    assert_eq!(ints(&grade_up(&l)), vec![2, 1, 0]);
    assert_eq!(ints(&grade_down(&l)), vec![0, 1, 2]);
}
