use enceladus::error::EnceladusError;
use enceladus::heap::Heap;
use enceladus::priority_queue::PriorityQueue;
use enceladus::stack::StackError;

#[test]
fn heap_test_new_normal() -> Result<(), EnceladusError> {
    let actual_priority_queue: Heap<u64> = Heap::new();
    let expected_priority_queue: Heap<u64> = Heap::new();

    assert_eq!(actual_priority_queue, expected_priority_queue);
    assert_eq!(actual_priority_queue.length(), Ok(0));
    Ok(())
}

#[test]
fn test_push_normal1() -> Result<(), EnceladusError> {
    let mut actual_priority_queue: Heap<u64> = Heap::new();

    for i in 1..10 {
        actual_priority_queue.push(i)?;
    }

    assert_eq!(actual_priority_queue.pop()?, 9);
    assert_eq!(actual_priority_queue.pop()?, 8);
    assert_eq!(actual_priority_queue.pop()?, 7);
    assert_eq!(actual_priority_queue.pop()?, 6);
    assert_eq!(actual_priority_queue.pop()?, 5);
    assert_eq!(actual_priority_queue.pop()?, 4);
    assert_eq!(actual_priority_queue.pop()?, 3);
    assert_eq!(actual_priority_queue.pop()?, 2);
    assert_eq!(actual_priority_queue.pop()?, 1);

    Ok(())
}

#[test]
fn heap_hands_out_the_greatest_first_whatever_the_order_of_pushes() {
    let mut queue: Heap<u64> = Heap::new();
    for value in [5, 1, 9, 3, 9, 0, 7] {
        assert_eq!(queue.push(value), Ok(()));
    }
    assert_eq!(queue.length(), Ok(7));
    assert_eq!(queue.peek(), Ok(&9));
    let mut taken = Vec::new();
    while let Ok(value) = queue.pop() {
        taken.push(value);
    }
    assert_eq!(taken, vec![9, 9, 7, 5, 3, 1, 0]);
    assert_eq!(queue.length(), Ok(0));
}

#[test]
fn empty_heap_reports_out_of_bounds() {
    let mut queue: Heap<u64> = Heap::new();
    assert_eq!(queue.pop(), Err(EnceladusError::OutOfBounds));
    assert_eq!(queue.peek(), Err(EnceladusError::OutOfBounds));
    assert_eq!(queue.find(1), Ok(None));
}

#[test]
fn heap_finds_the_first_equal_element() {
    let mut queue: Heap<u64> = Heap::new();
    for value in [4, 2, 4, 8] {
        queue.push(value).unwrap();
    }
    assert_eq!(queue.find(2), Ok(Some(0)));
    assert_eq!(queue.find(4), Ok(Some(1)));
    assert_eq!(queue.find(8), Ok(Some(3)));
    assert_eq!(queue.find(5), Ok(None));
}

#[test]
fn stack_error_message_is_the_documented_sentence() {
    assert_eq!(StackError::OutOfBounds.message(), "Insufficient elements");
}

#[test]
fn heap_hands_its_elements_over_in_ascending_order() {
    let mut queue: Heap<u64> = Heap::new();
    for value in [3, 1, 2] {
        queue.push(value).unwrap();
    }
    let copy = queue.clone();
    assert_eq!(copy, queue);
    assert_eq!(queue.into_vec(), vec![1, 2, 3]);
    let mut other: Heap<u64> = Heap::new();
    other.push(1).unwrap();
    assert_ne!(copy, other);
}
