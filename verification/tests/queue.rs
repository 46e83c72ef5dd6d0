use static_opti::queue::{claimed_index, next_position, StaticQueue};

#[test]
fn pop_hands_out_from_the_back() {
    let queue = StaticQueue::new(vec!["a", "b", "c"]);
    assert_eq!(queue.pop(), Some(&"c"));
    assert_eq!(queue.pop(), Some(&"b"));
    assert_eq!(queue.pop(), Some(&"a"));
    assert_eq!(queue.pop(), None);
    assert_eq!(queue.pop(), None);
}

#[test]
fn pop_on_empty_queue() {
    let queue: StaticQueue<u32> = StaticQueue::new(vec![]);
    assert_eq!(queue.pop(), None);
    assert_eq!(queue.pop(), None);
}

#[test]
fn every_item_is_handed_out_once() {
    let queue = StaticQueue::new((0..100u32).collect::<Vec<u32>>());
    let mut seen = vec![false; 100];
    while let Some(item) = queue.pop() {
        assert!(!seen[*item as usize]);
        seen[*item as usize] = true;
    }
    assert!(seen.iter().all(|s| *s));
}

#[test]
fn counter_never_goes_below_zero() {
    assert_eq!(next_position(3), 2);
    assert_eq!(next_position(1), 0);
    assert_eq!(next_position(0), 0);
    assert_eq!(next_position(usize::MAX), usize::MAX - 1);
}

#[test]
fn claim_gives_the_item_below_the_counter() {
    assert_eq!(claimed_index(3, 3), Some(2));
    assert_eq!(claimed_index(1, 3), Some(0));
    assert_eq!(claimed_index(0, 3), None);
    assert_eq!(claimed_index(4, 3), None);
    assert_eq!(claimed_index(0, 0), None);
}

#[test]
fn item_at_follows_the_counter() {
    let queue = StaticQueue::new(vec![10, 20, 30]);
    assert_eq!(queue.item_at(3), Some(&30));
    assert_eq!(queue.item_at(2), Some(&20));
    assert_eq!(queue.item_at(1), Some(&10));
    assert_eq!(queue.item_at(0), None);
    assert_eq!(queue.item_at(4), None);
}
