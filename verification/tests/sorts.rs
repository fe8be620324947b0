use enceladus::arraylist::ArrayList;
use enceladus::bubblesort::bubblesort;
use enceladus::error::EnceladusError;
use enceladus::insertion_sort::insertion_sort;
use enceladus::list::List;

fn cmp_leq<T: Eq + Ord>(a: &T, b: &T) -> bool {
    a <= b
}

fn cmp_lt<T: Eq + Ord>(a: &T, b: &T) -> bool {
    a < b
}

fn list_of(values: &[u64]) -> ArrayList<u64> {
    let mut list: ArrayList<u64> = ArrayList::new();
    for value in values {
        list.append(*value).unwrap();
    }
    list
}

fn values_of(list: &ArrayList<u64>) -> Vec<u64> {
    let mut values = Vec::new();
    for pos in 0..list.length().unwrap() {
        values.push(*list.get(pos).unwrap());
    }
    values
}

#[test]
fn test_bubblesort_normal1() -> Result<(), EnceladusError> {
    let mut actual_list: ArrayList<u64> = ArrayList::new();

    actual_list.append(33)?;
    actual_list.append(12)?;
    actual_list.append(0)?;
    actual_list.append(1)?;
    actual_list.append(4)?;

    let mut expected_list: ArrayList<u64> = ArrayList::new();

    expected_list.append(0)?;
    expected_list.append(1)?;
    expected_list.append(4)?;
    expected_list.append(12)?;
    expected_list.append(33)?;

    let actual_res: Result<(), EnceladusError> = bubblesort(&mut actual_list, cmp_leq);
    let expected_res: Result<(), EnceladusError> = Ok(());

    assert_eq!(actual_list, expected_list);
    assert_eq!(actual_res, expected_res);

    Ok(())
}

#[test]
fn test_bubblesort_normal_empty() -> Result<(), EnceladusError> {
    let mut actual_list: ArrayList<u64> = ArrayList::new();
    let expected_list: ArrayList<u64> = ArrayList::new();

    let actual_res: Result<(), EnceladusError> = bubblesort(&mut actual_list, cmp_leq);
    let expected_res: Result<(), EnceladusError> = Ok(());

    assert_eq!(actual_list, expected_list);
    assert_eq!(actual_res, expected_res);

    Ok(())
}

#[test]
fn test_bubblesort_normal_single() -> Result<(), EnceladusError> {
    let mut actual_list: ArrayList<u64> = ArrayList::new();
    actual_list.append(1)?;

    let mut expected_list: ArrayList<u64> = ArrayList::new();
    expected_list.append(1)?;

    let actual_res: Result<(), EnceladusError> = bubblesort(&mut actual_list, cmp_leq);
    let expected_res: Result<(), EnceladusError> = Ok(());

    assert_eq!(actual_list, expected_list);
    assert_eq!(actual_res, expected_res);

    Ok(())
}

#[test]
fn test_bubblesort_normal_sorted_two_elems() -> Result<(), EnceladusError> {
    let mut actual_list: ArrayList<u64> = ArrayList::new();
    actual_list.append(1)?;
    actual_list.append(12)?;

    let mut expected_list: ArrayList<u64> = ArrayList::new();
    expected_list.append(1)?;
    expected_list.append(12)?;

    let actual_res: Result<(), EnceladusError> = bubblesort(&mut actual_list, cmp_leq);
    let expected_res: Result<(), EnceladusError> = Ok(());

    assert_eq!(actual_list, expected_list);
    assert_eq!(actual_res, expected_res);

    Ok(())
}

#[test]
fn test_insertion_sort_normal1() -> Result<(), EnceladusError> {
    let mut actual_list: ArrayList<u64> = ArrayList::new();

    actual_list.append(33)?;
    actual_list.append(12)?;
    actual_list.append(0)?;
    actual_list.append(1)?;
    actual_list.append(4)?;

    let mut expected_list: ArrayList<u64> = ArrayList::new();

    expected_list.append(0)?;
    expected_list.append(1)?;
    expected_list.append(4)?;
    expected_list.append(12)?;
    expected_list.append(33)?;

    let actual_res: Result<(), EnceladusError> = insertion_sort(&mut actual_list, cmp_leq);
    let expected_res: Result<(), EnceladusError> = Ok(());

    assert_eq!(actual_list, expected_list);
    assert_eq!(actual_res, expected_res);

    Ok(())
}

#[test]
fn test_insertion_sort_normal_empty() -> Result<(), EnceladusError> {
    let mut actual_list: ArrayList<u64> = ArrayList::new();
    let expected_list: ArrayList<u64> = ArrayList::new();

    let actual_res: Result<(), EnceladusError> = insertion_sort(&mut actual_list, cmp_leq);
    let expected_res: Result<(), EnceladusError> = Ok(());

    assert_eq!(actual_list, expected_list);
    assert_eq!(actual_res, expected_res);

    Ok(())
}

#[test]
fn test_insertion_sort_normal_single() -> Result<(), EnceladusError> {
    let mut actual_list: ArrayList<u64> = ArrayList::new();
    actual_list.append(1)?;

    let mut expected_list: ArrayList<u64> = ArrayList::new();
    expected_list.append(1)?;

    let actual_res: Result<(), EnceladusError> = insertion_sort(&mut actual_list, cmp_leq);
    let expected_res: Result<(), EnceladusError> = Ok(());

    assert_eq!(actual_list, expected_list);
    assert_eq!(actual_res, expected_res);

    Ok(())
}

#[test]
fn test_insertion_sort_normal_sorted_two_elems() -> Result<(), EnceladusError> {
    let mut actual_list: ArrayList<u64> = ArrayList::new();
    actual_list.append(1)?;
    actual_list.append(12)?;

    let mut expected_list: ArrayList<u64> = ArrayList::new();
    expected_list.append(1)?;
    expected_list.append(12)?;

    let actual_res: Result<(), EnceladusError> = insertion_sort(&mut actual_list, cmp_leq);
    let expected_res: Result<(), EnceladusError> = Ok(());

    assert_eq!(actual_list, expected_list);
    assert_eq!(actual_res, expected_res);

    Ok(())
}

#[test]
fn bubblesort_keeps_duplicates_and_orders_them() {
    let mut list = list_of(&[5, 3, 5, 1, 3, 3, 0]);
    assert_eq!(bubblesort(&mut list, cmp_leq), Ok(()));
    assert_eq!(values_of(&list), vec![0, 1, 3, 3, 3, 5, 5]);
}

#[test]
fn insertion_sort_keeps_duplicates_and_orders_them() {
    let mut list = list_of(&[5, 3, 5, 1, 3, 3, 0]);
    assert_eq!(insertion_sort(&mut list, cmp_leq), Ok(()));
    assert_eq!(values_of(&list), vec![0, 1, 3, 3, 3, 5, 5]);
}

#[test]
fn sorts_with_a_strict_comparison() {
    let mut bubbled = list_of(&[9, 7, 8, 7]);
    assert_eq!(bubblesort(&mut bubbled, cmp_lt), Ok(()));
    assert_eq!(values_of(&bubbled), vec![7, 7, 8, 9]);

    let mut inserted = list_of(&[9, 7, 8, 7]);
    assert_eq!(insertion_sort(&mut inserted, cmp_lt), Ok(()));
    assert_eq!(values_of(&inserted), vec![7, 7, 8, 9]);
}

#[test]
fn sorting_a_sorted_list_changes_nothing() {
    let mut bubbled = list_of(&[0, 1, 4, 12, 33]);
    assert_eq!(bubblesort(&mut bubbled, cmp_leq), Ok(()));
    assert_eq!(bubbled, list_of(&[0, 1, 4, 12, 33]));

    let mut inserted = list_of(&[0, 1, 4, 12, 33]);
    assert_eq!(insertion_sort(&mut inserted, cmp_leq), Ok(()));
    assert_eq!(inserted, list_of(&[0, 1, 4, 12, 33]));
}

#[test]
fn sorts_in_descending_order_with_a_closure() {
    let mut list = list_of(&[2, 9, 4]);
    assert_eq!(bubblesort(&mut list, |a: &u64, b: &u64| a >= b), Ok(()));
    assert_eq!(values_of(&list), vec![9, 4, 2]);

    let mut list = list_of(&[2, 9, 4]);
    assert_eq!(insertion_sort(&mut list, |a: &u64, b: &u64| a >= b), Ok(()));
    assert_eq!(values_of(&list), vec![9, 4, 2]);
}
