use rust4geo::attribute_manager::AttributeManager;
use rust4geo::list_utils::{ascendant_sort, descendant_sort, get_absent, get_present};

fn names(raw: Vec<&str>) -> Vec<Vec<u8>> {
    raw.iter().map(|s| s.as_bytes().to_vec()).collect()
}

#[test]
fn delete_fields_ignores_missing_names() {
    // Deleting ["a", "missing", "b"]: "a" and "b" go, "missing" is ignored,
    // nothing errors.
    let mut manager = AttributeManager::new(names(vec!["a", "x", "b", "y"]));
    manager.delete_fields(names(vec!["a", "missing", "b"]));
    assert_eq!(manager.fields, names(vec!["x", "y"]));
}

#[test]
fn delete_fields_keeps_remaining_order() {
    let mut manager = AttributeManager::new(names(vec!["p", "q", "r", "s", "t"]));
    manager.delete_fields(names(vec!["t", "q"]));
    assert_eq!(manager.fields, names(vec!["p", "r", "s"]));
}

#[test]
fn delete_fields_tolerates_repeated_names() {
    let mut manager = AttributeManager::new(names(vec!["a", "b", "c"]));
    manager.delete_fields(names(vec!["b", "b"]));
    assert_eq!(manager.fields, names(vec!["a", "c"]));
}

#[test]
fn delete_fields_removes_first_occurrence_of_duplicated_field() {
    let mut manager = AttributeManager::new(names(vec!["a", "b", "a"]));
    manager.delete_fields(names(vec!["a"]));
    assert_eq!(manager.fields, names(vec!["b", "a"]));
}

#[test]
fn get_present_keeps_order_of_first_vector() {
    let a = vec![1u64, 2, 3, 4];
    let b = vec![4u64, 2, 9];
    assert_eq!(get_present(&a, &b), vec![2u64, 4]);
}

#[test]
fn get_absent_keeps_order_of_first_vector() {
    let a = vec![1u64, 2, 3, 4];
    let b = vec![4u64, 2, 9];
    assert_eq!(get_absent(&a, &b), vec![1u64, 3]);
}

#[test]
fn get_present_of_disjoint_vectors_is_empty() {
    let a = vec![1u64, 2];
    let b = vec![3u64];
    assert_eq!(get_present(&a, &b), Vec::<u64>::new());
    assert_eq!(get_absent(&a, &b), vec![1u64, 2]);
}

#[test]
fn ascendant_sort_orders_ascending() {
    let mut v = vec![3u64, 1, 4, 1, 5, 9, 2, 6];
    ascendant_sort(&mut v);
    assert_eq!(v, vec![1u64, 1, 2, 3, 4, 5, 6, 9]);
}

#[test]
fn descendant_sort_orders_descending() {
    let mut v = vec![3u64, 1, 4, 1, 5, 9, 2, 6];
    descendant_sort(&mut v);
    assert_eq!(v, vec![9u64, 6, 5, 4, 3, 2, 1, 1]);
}
