use enceladus::arraylist::ArrayList;
use enceladus::error::EnceladusError;
use enceladus::list::List;

fn list_of(values: &[u64]) -> ArrayList<u64> {
    let mut list: ArrayList<u64> = ArrayList::new();
    for value in values {
        list.append(*value).unwrap();
    }
    list
}

#[test]
fn it_works() {
    assert_eq!(2 + 2, 4);
}

#[test]
fn list_get_and_set_mind_the_position() {
    let mut list = list_of(&[10, 20, 30]);
    assert_eq!(list.length(), Ok(3));
    assert_eq!(list.get(1), Ok(&20));
    assert_eq!(list.get(3), Err(EnceladusError::OutOfBounds));
    assert_eq!(list.set(2, 31), Ok(()));
    assert_eq!(list.set(3, 41), Err(EnceladusError::OutOfBounds));
    assert_eq!(list, list_of(&[10, 20, 31]));
    match list.get_mut(0) {
        Ok(elem) => *elem = 11,
        Err(_) => panic!("position 0 is in the list"),
    }
    assert_eq!(list.get_mut(5).err(), Some(EnceladusError::OutOfBounds));
    assert_eq!(list, list_of(&[11, 20, 31]));
}

#[test]
fn list_insert_and_remove_move_the_rest() {
    let mut list = list_of(&[1, 2, 3]);
    assert_eq!(list.insert(1, 9), Ok(()));
    assert_eq!(list, list_of(&[1, 9, 2, 3]));
    assert_eq!(list.insert(4, 7), Ok(()));
    assert_eq!(list, list_of(&[1, 9, 2, 3, 7]));
    assert_eq!(list.insert(6, 8), Err(EnceladusError::OutOfBounds));
    assert_eq!(list.remove(0), Ok(1));
    assert_eq!(list, list_of(&[9, 2, 3, 7]));
    assert_eq!(list.remove(4), Err(EnceladusError::OutOfBounds));
    assert_eq!(list.clear(), Ok(()));
    assert_eq!(list.length(), Ok(0));
}

#[test]
fn list_swap_exchanges_two_elements() {
    let mut list = list_of(&[1, 2, 3]);
    assert_eq!(list.swap(0, 2), Ok(()));
    assert_eq!(list, list_of(&[3, 2, 1]));
    assert_eq!(list.swap(1, 1), Ok(()));
    assert_eq!(list, list_of(&[3, 2, 1]));
    assert_eq!(list.swap(0, 3), Err(EnceladusError::OutOfBounds));
    assert_eq!(list, list_of(&[3, 2, 1]));
}

#[test]
fn list_finds_and_counts_elements() {
    let list = list_of(&[4, 7, 4, 1, 4]);
    assert_eq!(list.contains(7), Ok(true));
    assert_eq!(list.contains(8), Ok(false));
    assert_eq!(list.find(4), Ok(Some(0)));
    assert_eq!(list.find(1), Ok(Some(3)));
    assert_eq!(list.find(9), Ok(None));
    assert_eq!(list.find_all(4), Ok(Some(vec![0, 2, 4])));
    assert_eq!(list.find_all(9), Ok(None));
    assert_eq!(list.count(4), Ok(3));
    assert_eq!(list.count(9), Ok(0));
}

#[test]
fn error_messages_are_the_documented_sentences() {
    assert_eq!(EnceladusError::OutOfBounds.message(), "Requested index is out of bounds");
    assert_eq!(EnceladusError::KeyNotFound.message(), "Requested key does not exist");
    assert_eq!(EnceladusError::VertexNotFound.message(), "Requested vertex does not exist");
    assert_eq!(EnceladusError::EdgeNotFound.message(), "Requested edge does not exist");
}
