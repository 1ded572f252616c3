use prio_queue::codec::{decode, encode};
use prio_queue::hash_storage::HashStorage;
use prio_queue::ordered_storage::OrderedStorage;
use prio_queue::replay::{replay, Op};
use prio_queue::simple_storage::SimpleStorage;
use prio_queue::storage::{Storage, StorageItem};

fn payloads(items: &[StorageItem]) -> Vec<Vec<u8>> {
    items.iter().map(|it| (*it.data).clone()).collect()
}

fn scenario<S: Storage>() {
    let mut s = S::new();
    s.push(10, Box::new(b"a".to_vec()));
    s.push(10, Box::new(b"b".to_vec()));
    s.push(20, Box::new(b"c".to_vec()));
    assert_eq!(payloads(&s.pop_many(2)), vec![b"c".to_vec(), b"a".to_vec()]);
    assert_eq!(payloads(&s.pop_many(1)), vec![b"b".to_vec()]);
    assert_eq!(s.pop_many(1).len(), 0);
}

#[test]
fn scenario_two_priorities_hash() {
    scenario::<HashStorage>();
}

#[test]
fn scenario_two_priorities_ordered() {
    scenario::<OrderedStorage>();
}

#[test]
fn scenario_two_priorities_simple() {
    scenario::<SimpleStorage>();
}

fn pop_many_counts<S: Storage>() {
    let mut s = S::new();
    assert_eq!(s.pop_many(3).len(), 0);
    for p in [3u16, 1, 2, 3, 0] {
        s.push(p, Box::new(vec![p as u8]));
    }
    assert_eq!(s.pop_many(0).len(), 0);
    let first = s.pop_many(2);
    assert_eq!(first.iter().map(|it| it.priority).collect::<Vec<_>>(), vec![3, 3]);
    let rest = s.pop_many(10);
    assert_eq!(rest.iter().map(|it| it.priority).collect::<Vec<_>>(), vec![2, 1, 0]);
    assert_eq!(s.max_priority(), None);
}

#[test]
fn pop_many_returns_at_most_what_is_there() {
    pop_many_counts::<HashStorage>();
    pop_many_counts::<OrderedStorage>();
    pop_many_counts::<SimpleStorage>();
}

fn clear_then_pop<S: Storage>() {
    let mut s = S::new();
    s.push(7, Box::new(vec![1, 2]));
    s.push(9, Box::new(vec![3]));
    s.clear();
    assert_eq!(s.pop_many(1).len(), 0);
    assert_eq!(s.max_priority(), None);
}

#[test]
fn clear_then_pop_is_empty() {
    clear_then_pop::<HashStorage>();
    clear_then_pop::<OrderedStorage>();
    clear_then_pop::<SimpleStorage>();
}

#[test]
fn ordered_storage_clears() {
    let mut s = OrderedStorage::new();
    s.push(1, Box::new(vec![1]));
    s.clear();
    assert!(s.pop().is_none());
}

fn round_trip<S: Storage>() {
    let mut s = S::new();
    s.push(5, Box::new(vec![1, 10, 255]));
    s.push(65535, Box::new(vec![]));
    s.push(5, Box::new(b"x y".to_vec()));
    s.push(0, Box::new(vec![0]));
    let blob = s.dump().unwrap();
    let mut t = S::new();
    t.push(1, Box::new(vec![42]));
    assert!(t.load(&blob));
    let a = s.pop_many(10);
    let b = t.pop_many(10);
    assert_eq!(a.len(), 4);
    assert_eq!(payloads(&a), payloads(&b));
    assert_eq!(
        a.iter().map(|it| it.priority).collect::<Vec<_>>(),
        b.iter().map(|it| it.priority).collect::<Vec<_>>()
    );
    assert_eq!(payloads(&a)[1], vec![1, 10, 255]);
}

#[test]
fn dump_then_load_reproduces_pop_order() {
    round_trip::<HashStorage>();
    round_trip::<OrderedStorage>();
    round_trip::<SimpleStorage>();
}

#[test]
fn dump_of_empty_store_is_a_zero_count() {
    let s = HashStorage::new();
    assert_eq!(s.dump().unwrap(), vec![0, 0, 0, 0]);
}

#[test]
fn dump_layout_is_count_priority_length_payload() {
    let mut s = SimpleStorage::new();
    s.push(2, Box::new(vec![7]));
    s.push(258, Box::new(vec![8, 9]));
    assert_eq!(
        s.dump().unwrap(),
        vec![2, 0, 0, 0, 2, 1, 2, 0, 0, 0, 8, 9, 2, 0, 1, 0, 0, 0, 7]
    );
}

#[test]
fn load_refuses_bytes_that_are_not_a_dump() {
    let mut s = OrderedStorage::new();
    s.push(3, Box::new(vec![3]));
    assert!(!s.load(&[1, 0, 0]));
    assert!(!s.load(&[1, 0, 0, 0, 5, 0, 9, 0, 0, 0, 1]));
    assert!(!s.load(&[0, 0, 0, 0, 1]));
    assert_eq!(s.max_priority(), Some(3));
}

#[test]
fn decode_reads_what_encode_writes() {
    let items = vec![
        StorageItem { priority: 300, data: Box::new(vec![1, 2, 3]) },
        StorageItem { priority: 1, data: Box::new(vec![]) },
    ];
    let bytes = encode(&items).unwrap();
    assert_eq!(bytes.len(), 4 + 6 + 3 + 6);
    let back = decode(&bytes).unwrap();
    assert_eq!(back.len(), 2);
    assert_eq!(back[0].priority, 300);
    assert_eq!(*back[0].data, vec![1, 2, 3]);
    assert_eq!(back[1].priority, 1);
    assert!(back[1].data.is_empty());
}

fn ops() -> Vec<Op> {
    vec![
        Op::Push { priority: 4, data: vec![1] },
        Op::Push { priority: 9, data: vec![2] },
        Op::Push { priority: 4, data: vec![3] },
        Op::Pop { count: 1 },
        Op::Push { priority: 9, data: vec![4] },
        Op::Push { priority: 0, data: vec![5] },
        Op::Pop { count: 2 },
        Op::Push { priority: 4, data: vec![6] },
        Op::Pop { count: 10 },
        Op::Pop { count: 1 },
    ]
}

fn flat(out: &[Vec<StorageItem>]) -> Vec<Vec<Vec<u8>>> {
    out.iter().map(|v| payloads(v)).collect()
}

#[test]
fn strategies_agree_on_the_same_calls() {
    let a = flat(&replay::<HashStorage>(&ops()));
    let b = flat(&replay::<OrderedStorage>(&ops()));
    let c = flat(&replay::<SimpleStorage>(&ops()));
    assert_eq!(a, b);
    assert_eq!(b, c);
    assert_eq!(
        a,
        vec![
            vec![vec![2]],
            vec![vec![4], vec![1]],
            vec![vec![3], vec![6], vec![5]],
            vec![],
        ]
    );
}

#[test]
fn higher_priority_leaves_before_lower() {
    let mut s = HashStorage::new();
    s.push(1, Box::new(vec![1]));
    s.push(100, Box::new(vec![2]));
    s.push(50, Box::new(vec![3]));
    assert_eq!(s.max_priority(), Some(100));
    assert_eq!(payloads(&s.pop_many(3)), vec![vec![2], vec![3], vec![1]]);
}

#[test]
fn item_copy_is_deep() {
    let it = StorageItem { priority: 8, data: Box::new(vec![4, 5]) };
    let c = it.copy();
    assert_eq!(c.priority, 8);
    assert_eq!(*c.data, vec![4, 5]);
}
