use enceladus::error::EnceladusError;
use enceladus::hashmap::{HashMap, INIT_NUM_BUCKETS};
use enceladus::map::MapAdt;

#[test]
fn test_insert_normal() -> Result<(), EnceladusError> {
    let mut actual_hashmap: HashMap<String, usize> = HashMap::new();

    let key: String = "Sally".to_string();
    let value: usize = key.len() as usize;

    let actual_res: Result<(), EnceladusError> = actual_hashmap.insert(key, value);

    let expected_res: Result<(), EnceladusError> = Ok(());

    assert_eq!(actual_res, expected_res);
    assert_eq!(actual_hashmap.size()?, 1);
    Ok(())
}

#[test]
fn test_remove_normal() -> Result<(), EnceladusError> {
    let mut actual_hashmap: HashMap<String, usize> = HashMap::new();

    let key: String = "Sally".to_string();
    let value: usize = key.len() as usize;

    actual_hashmap.insert(key.clone(), value)?;

    let actual_res: Result<(), EnceladusError> = actual_hashmap.remove(key);

    let expected_res: Result<(), EnceladusError> = Ok(());
    let expected_hashmap: HashMap<String, usize> = HashMap::new();

    assert_eq!(actual_res, expected_res);
    assert_eq!(actual_hashmap, expected_hashmap);
    Ok(())
}

#[test]
fn test_insert_duplicate() -> Result<(), EnceladusError> {
    let mut actual_hashmap: HashMap<String, usize> = HashMap::new();

    let key: String = "Sally".to_string();
    let value: usize = key.len() as usize;

    actual_hashmap.insert(key.clone(), value)?;

    let actual_res: Result<(), EnceladusError> = actual_hashmap.insert(key.clone(), value + 1);

    let expected_res: Result<(), EnceladusError> = Ok(());

    let mut expected_hashmap: HashMap<String, usize> = HashMap::new();
    expected_hashmap.insert(key.clone(), value + 1)?;

    assert_eq!(actual_res, expected_res);
    Ok(())
}

#[test]
fn test_remove_nonexistant() -> Result<(), EnceladusError> {
    let mut actual_hashmap: HashMap<String, usize> = HashMap::new();

    let key: String = "Sally".to_string();
    let _value: usize = key.len() as usize;

    let actual_res: Result<(), EnceladusError> = actual_hashmap.remove(key);

    let expected_res: Result<(), EnceladusError> = Err(EnceladusError::KeyNotFound);
    let expected_hashmap: HashMap<String, usize> = HashMap::new();

    assert_eq!(actual_res, expected_res);
    assert_eq!(actual_hashmap, expected_hashmap);
    Ok(())
}

#[test]
fn new_map_is_empty_with_the_initial_buckets() {
    let map: HashMap<usize, u64> = HashMap::new();
    assert_eq!(INIT_NUM_BUCKETS, 64);
    assert_eq!(map.size(), Ok(0));
    assert_eq!(map.bucket_count(), 64);
    assert_eq!(map.occupied_buckets(), 0);
    assert_eq!(map.get(0), Ok(None));
    assert_eq!(map.contains_key(0), Ok(false));
    assert_eq!(map.contains_value(0), Ok(false));
}

#[test]
fn get_returns_what_insert_stored() {
    let mut map: HashMap<usize, u64> = HashMap::new();
    assert_eq!(map.insert(7, 70), Ok(()));
    assert_eq!(map.insert(8, 80), Ok(()));
    assert_eq!(map.get(7), Ok(Some(&70)));
    assert_eq!(map.get(8), Ok(Some(&80)));
    assert_eq!(map.get(9), Ok(None));
    assert_eq!(map.contains_key(7), Ok(true));
    assert_eq!(map.contains_key(9), Ok(false));
    assert_eq!(map.contains_value(80), Ok(true));
    assert_eq!(map.contains_value(81), Ok(false));
    assert_eq!(map.size(), Ok(2));
}

#[test]
fn set_overwrites_and_fails_on_an_absent_key() {
    let mut map: HashMap<String, u64> = HashMap::new();
    assert_eq!(map.set("a".to_string(), 1), Err(EnceladusError::KeyNotFound));
    assert_eq!(map.size(), Ok(0));
    map.insert("a".to_string(), 1).unwrap();
    assert_eq!(map.set("a".to_string(), 2), Ok(()));
    assert_eq!(map.get("a".to_string()), Ok(Some(&2)));
    assert_eq!(map.size(), Ok(1));
}

#[test]
fn get_mut_gives_access_to_the_stored_value() {
    let mut map: HashMap<usize, u64> = HashMap::new();
    map.insert(3, 30).unwrap();
    match map.get_mut(3) {
        Ok(Some(value)) => *value += 1,
        _ => panic!("key 3 is stored"),
    }
    assert_eq!(map.get(3), Ok(Some(&31)));
    assert_eq!(map.get_mut(4).map(|found| found.is_none()), Ok(true));
}

#[test]
fn pairs_with_the_same_key_queue_up() {
    let mut map: HashMap<usize, u64> = HashMap::new();
    map.insert(5, 1).unwrap();
    map.insert(5, 2).unwrap();
    assert_eq!(map.size(), Ok(2));
    assert_eq!(map.get(5), Ok(Some(&1)));
    assert_eq!(map.set(5, 10), Ok(()));
    assert_eq!(map.get(5), Ok(Some(&10)));
    assert_eq!(map.remove(5), Ok(()));
    assert_eq!(map.get(5), Ok(Some(&2)));
    assert_eq!(map.size(), Ok(1));
    assert_eq!(map.remove(5), Ok(()));
    assert_eq!(map.get(5), Ok(None));
    assert_eq!(map.remove(5), Err(EnceladusError::KeyNotFound));
    assert_eq!(map.size(), Ok(0));
}

#[test]
fn size_is_inserts_minus_removes() {
    let mut map: HashMap<usize, usize> = HashMap::new();
    for key in 0..50 {
        map.insert(key, key * 2).unwrap();
    }
    assert_eq!(map.size(), Ok(50));
    for key in 0..20 {
        assert_eq!(map.remove(key), Ok(()));
    }
    assert_eq!(map.size(), Ok(30));
    assert_eq!(map.remove(0), Err(EnceladusError::KeyNotFound));
    assert_eq!(map.size(), Ok(30));
    for key in 20..50 {
        assert_eq!(map.get(key), Ok(Some(&(key * 2))));
    }
}

#[test]
fn growing_keeps_every_pair() {
    let mut map: HashMap<usize, usize> = HashMap::new();
    for key in 0..1000 {
        map.insert(key, key + 1).unwrap();
    }
    assert!(map.bucket_count() > 64);
    assert_eq!(map.bucket_count() % 64, 0);
    assert!(map.occupied_buckets() > 1);
    assert!(map.occupied_buckets() <= map.bucket_count());
    assert_eq!(map.size(), Ok(1000));
    for key in 0..1000 {
        assert_eq!(map.get(key), Ok(Some(&(key + 1))));
    }
    assert_eq!(map.get(1000), Ok(None));
}

#[test]
fn string_keys_spread_over_the_buckets() {
    let mut map: HashMap<String, usize> = HashMap::new();
    for key in 0..40 {
        map.insert(format!("key-{}", key), key).unwrap();
    }
    assert!(map.occupied_buckets() > 1);
    for key in 0..40 {
        assert_eq!(map.get(format!("key-{}", key)), Ok(Some(&key)));
    }
}

#[test]
fn the_table_doubles_when_three_quarters_of_the_buckets_are_occupied() {
    let mut map: HashMap<usize, usize> = HashMap::new();
    let mut key: usize = 0;
    let mut before: usize = 0;
    while map.bucket_count() == 64 {
        before = map.occupied_buckets();
        assert!(4 * before < 3 * 64);
        map.insert(key, key).unwrap();
        key += 1;
    }
    assert_eq!(before, 47);
    assert_eq!(map.bucket_count(), 128);
    assert_eq!(map.size(), Ok(key));
}

#[test]
fn clear_returns_the_map_to_its_first_state() {
    let mut map: HashMap<usize, usize> = HashMap::new();
    for key in 0..200 {
        map.insert(key, key).unwrap();
    }
    assert_eq!(map.clear(), Ok(()));
    assert_eq!(map.size(), Ok(0));
    assert_eq!(map.bucket_count(), 64);
    assert_eq!(map.get(5), Ok(None));
    assert_eq!(map, HashMap::new());
    assert_eq!(map.insert(5, 6), Ok(()));
    assert_eq!(map.get(5), Ok(Some(&6)));
}

#[test]
fn maps_are_equal_when_keys_and_values_agree() {
    let mut left: HashMap<usize, u64> = HashMap::new();
    let mut right: HashMap<usize, u64> = HashMap::new();
    left.insert(1, 10).unwrap();
    left.insert(2, 20).unwrap();
    right.insert(2, 20).unwrap();
    assert_ne!(left, right);
    right.insert(1, 10).unwrap();
    assert_eq!(left, right);

    let mut crossed: HashMap<usize, u64> = HashMap::new();
    crossed.insert(1, 20).unwrap();
    crossed.insert(2, 10).unwrap();
    assert_eq!(left, crossed);

    let mut other_value: HashMap<usize, u64> = HashMap::new();
    other_value.insert(1, 10).unwrap();
    other_value.insert(2, 21).unwrap();
    assert_ne!(left, other_value);
}

#[test]
fn items_hold_one_pair_for_each_key() {
    let mut map: HashMap<usize, u64> = HashMap::new();
    map.insert(1, 10).unwrap();
    map.insert(2, 20).unwrap();
    map.insert(1, 11).unwrap();
    map.insert(3, 30).unwrap();
    let mut pairs = map.items();
    pairs.sort();
    assert_eq!(pairs, vec![(1, 10), (2, 20), (3, 30)]);
    let empty: HashMap<usize, u64> = HashMap::new();
    assert_eq!(empty.items(), vec![]);
}
