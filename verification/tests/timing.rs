use ckan_meta_rs::timing::timing_totals;

#[test]
fn timing_totals_give_least_greatest_and_total() {
    let t = timing_totals(&vec![7, 3, 12, 5]).expect("the total fits");
    assert_eq!((t.min, t.max, t.total), (3, 12, 27));
    let empty = timing_totals(&vec![]).expect("an empty list has totals");
    assert_eq!((empty.min, empty.max, empty.total), (0, 0, 0));
    let one = timing_totals(&vec![9]).expect("the total fits");
    assert_eq!((one.min, one.max, one.total), (9, 9, 9));
}

#[test]
fn timing_totals_refuse_an_overflowing_total() {
    assert!(timing_totals(&vec![u128::MAX, 1]).is_none());
    assert!(timing_totals(&vec![u128::MAX, 0]).is_some());
}
