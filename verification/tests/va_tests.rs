use kona_rs::k::{K, KData};
use kona_rs::va::{flip, plus, scan, unique, _2d};

#[test]
fn test_unique_ints() {
    let x = K::from_ints(vec![1, 2, 2, 3, 1, 4, 3]);
    let res = unique(&x);
    assert_eq!(res.t, 1);
    assert_eq!(res.ki_data(), &[1, 2, 3, 4]);
}

#[test]
fn test_unique_list() {
    let x = K::from_list(vec![
        K::from_ints(vec![1, 2]),
        K::from_ints(vec![3, 4]),
        K::from_ints(vec![1, 2]),
        K::from_ints(vec![5]),
    ]);
    let res = unique(&x);
    assert_eq!(res.t, 0);
    let rd = res.kk_data();
    assert_eq!(rd.len(), 3);
    assert_eq!(rd[0].ki_data(), &[1, 2]);
    assert_eq!(rd[1].ki_data(), &[3, 4]);
    assert_eq!(rd[2].ki_data(), &[5]);
}

#[test]
fn test_flip() {
    let row1 = K::from_ints(vec![1, 2, 3]);
    let row2 = K::from_ints(vec![4, 5, 6]);
    let mat = K::from_list(vec![row1, row2]);
    let flipped = flip(&mat);
    assert_eq!(flipped.t, 0);
    let rows = flipped.kk_data();
    assert_eq!(rows.len(), 3);
    assert_eq!(rows[0].ki_data(), &[1, 4]);
    assert_eq!(rows[1].ki_data(), &[2, 5]);
    assert_eq!(rows[2].ki_data(), &[3, 6]);
}

#[test]
fn test_scan() {
    let x = K::from_ints(vec![1, 2, 3]);
    let res1 = scan(plus, None, &x);
    assert_eq!(res1.t, 1);
    assert_eq!(res1.ki_data(), &[1, 3, 6]);

    let res2 = scan(plus, Some(&K::ki(10)), &x);
    assert_eq!(res2.t, 1);
    assert_eq!(res2.ki_data(), &[11, 13, 16]);
}

#[test]
fn test_ffi_add_two_sum_all() {
    let args = K::from_list(vec![K::ki(10), K::ki(20)]);
    let res = _2d(&K::ki(104), &args);
    assert_eq!(res.t, -1);
    assert_eq!(res.ki_data()[0], 30);

    let arr = K::from_ints(vec![1, 2, 3, 4]);
    let sum_res = _2d(&K::ki(105), &arr);
    assert_eq!(sum_res.t, -1);
    assert_eq!(sum_res.ki_data()[0], 10);
}

#[test]
fn data_variants_follow_type_codes() {
    let a = K::ki(7);
    assert!(matches!(a.data, KData::Ints(_)));
    assert_eq!((a.t, a.n), (-1, 1));
    let l = K::from_list(vec![K::ki(1)]);
    assert!(matches!(l.data, KData::List(_)));
    assert_eq!((l.t, l.n), (0, 1));
}
