use rust_ocr_transformer::decimal::{push_decimal, push_padded};
use rust_ocr_transformer::sorting::{sort_items_by_key, sorted_range_by_key};

#[test]
fn decimal_notation() {
    let mut s = String::from("n=");
    push_decimal(&mut s, 0);
    push_decimal(&mut s, 1);
    push_decimal(&mut s, 907);
    assert_eq!(s, "n=01907");
    let mut m = String::new();
    push_decimal(&mut m, u64::MAX);
    assert_eq!(m, u64::MAX.to_string());
}

#[test]
fn padded_notation() {
    let mut s = String::new();
    push_padded(&mut s, 7, 3);
    assert_eq!(s, "007");
    s.clear();
    push_padded(&mut s, 12345, 3);
    assert_eq!(s, "12345", "longer numbers are not cut");
    s.clear();
    push_padded(&mut s, 0, 0);
    assert_eq!(s, "0");
}

#[test]
fn sorting_is_stable_and_ascending() {
    let keys = vec![5u64, 1, 5, 0, 1];
    assert_eq!(sorted_range_by_key(&keys), vec![3, 1, 4, 0, 2]);
    assert_eq!(sort_items_by_key(&vec![2, 0, 4], &keys), vec![4, 2, 0]);
    assert_eq!(sorted_range_by_key(&vec![]), Vec::<usize>::new());
}
