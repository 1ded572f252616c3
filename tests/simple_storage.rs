use prio_queue::storage::Storage;
use prio_queue::simple_storage::SimpleStorage;

#[test]
fn simple_storage_it_works_for_no_elements() {
    let mut instance = SimpleStorage::new();
    let opt = instance.pop();
    assert_eq!(opt.is_none(), true);
}

#[test]
fn simple_storage_it_works_for_a_single_element() {
    let mut instance = SimpleStorage::new();
    instance.push(10, Box::new(vec![2]));
    let opt = instance.pop().unwrap();
    assert_eq!(opt.priority, 10);
    assert_eq!(opt.data[0], 2);
    let opt2 = instance.pop();
    assert_eq!(opt2.is_none(), true);
}

#[test]
fn simple_storage_it_works_for_2_elements() {
    let mut instance = SimpleStorage::new();
    instance.push(10, Box::new(vec![2]));
    instance.push(2, Box::new(vec![1]));
    let opt = instance.pop().unwrap();
    assert_eq!(opt.priority, 10);
    assert_eq!(opt.data[0], 2);
    let opt2 = instance.pop().unwrap();
    assert_eq!(opt2.priority, 2);
    assert_eq!(opt2.data[0], 1);
    let opt3 = instance.pop();
    assert_eq!(opt3.is_none(), true);
}

#[test]
fn simple_storage_it_preserves_order_for_the_same_priority() {
    let mut instance = SimpleStorage::new();
    instance.push(2, Box::new(vec![1]));
    instance.push(2, Box::new(vec![2]));
    instance.push(2, Box::new(vec![3]));
    instance.push(4, Box::new(vec![4]));

    let opt = instance.pop().unwrap();
    assert_eq!(opt.priority, 4);
    assert_eq!(opt.data[0], 4);

    let opt2 = instance.pop().unwrap();
    assert_eq!(opt2.priority, 2);
    assert_eq!(opt2.data[0], 1);

    let opt3 = instance.pop().unwrap();
    assert_eq!(opt3.priority, 2);
    assert_eq!(opt3.data[0], 2);

    let opt4 = instance.pop().unwrap();
    assert_eq!(opt4.priority, 2);
    assert_eq!(opt4.data[0], 3);
}

#[test]
fn simple_storage_it_returns_correct_max_priority() {
    let mut instance = SimpleStorage::new();
    instance.push(10, Box::new(vec![1]));
    instance.push(2, Box::new(vec![1]));
    instance.push(11, Box::new(vec![1]));
    instance.push(3, Box::new(vec![1]));
    instance.push(0, Box::new(vec![1]));
    assert_eq!(instance.max_priority(), Some(11));
}

#[test]
fn simple_storage_it_clears() {
    let mut instance = SimpleStorage::new();
    instance.push(10, Box::new(vec![1]));
    instance.clear();
    let opt = instance.pop();
    assert_eq!(opt.is_none(), true);
}
