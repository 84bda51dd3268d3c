use db4nfv::ds::ringbuf::{RingBuf, RingBufContent};
use std::cmp::Ordering;

#[derive(Clone, Default, Debug, PartialEq)]
struct Item(u32);

impl RingBufContent for Item {}

fn ring_of(cap: usize, items: &[u32]) -> RingBuf<Item> {
    let mut ring = RingBuf::new(cap, None);
    for i in items {
        assert!(!ring.push(Item(*i)));
    }
    ring
}

#[test]
fn a_new_ring_is_empty() {
    let ring: RingBuf<Item> = RingBuf::new(4, None);
    assert_eq!(ring.len(), 0);
    assert_eq!(ring.cap(), 4);
    assert_eq!(ring.size(), 4 * std::mem::size_of::<Item>());
    assert!(ring.cursors_meet());
    assert_eq!(ring.first_clone(), None);
    assert_eq!(ring.last_clone(), None);
    assert_eq!(ring.pop(), None);
}

#[test]
fn push_appends_at_the_tail() {
    let ring = ring_of(5, &[1, 2, 3]);
    assert_eq!(ring.len(), 3);
    assert_eq!(ring.first_clone(), Some(Item(1)));
    assert_eq!(ring.last_clone(), Some(Item(3)));
    assert_eq!(*ring.peek(1), Item(2));
    assert!(!ring.cursors_meet());
    assert_eq!(ring.pop(), Some(Item(3)));
}

#[test]
fn filling_the_last_cell_is_reported_and_empties_the_ring() {
    let mut ring = ring_of(3, &[1, 2]);
    assert_eq!(ring.len(), 2);
    assert!(ring.push(Item(3)));
    assert!(ring.cursors_meet());
    assert_eq!(ring.len(), 0);
    assert_eq!(ring.first_clone(), None);
    let mut one: RingBuf<Item> = RingBuf::new(1, Some(false));
    assert!(one.push(Item(9)));
    assert_eq!(one.len(), 0);
}

#[test]
fn the_ring_wraps_around() {
    let mut ring = ring_of(4, &[1, 2, 3]);
    ring.discard_before(2);
    assert_eq!(ring.len(), 1);
    assert!(!ring.push(Item(4)));
    assert!(!ring.push(Item(5)));
    assert_eq!(ring.len(), 3);
    assert_eq!(ring.first_clone(), Some(Item(3)));
    assert_eq!(ring.last_clone(), Some(Item(5)));
    assert_eq!(*ring.peek(0), Item(3));
    assert_eq!(*ring.peek(1), Item(4));
    assert_eq!(*ring.peek(2), Item(5));
    assert_eq!(ring.position_as_ordered(|i: &Item| i.0.cmp(&5)), Some(2));
    assert_eq!(ring.search_back(|i: &Item| i.0 < 5, 2), Some(&Item(4)));
    ring.set(1, Item(40));
    assert_eq!(*ring.peek(1), Item(40));
    assert_eq!(ring.pop(), Some(Item(5)));
}

#[test]
fn discard_and_truncate_cut_both_ends() {
    let mut ring = ring_of(8, &[1, 2, 3, 4, 5]);
    ring.truncate_from(4);
    assert_eq!(ring.len(), 4);
    assert_eq!(ring.last_clone(), Some(Item(4)));
    ring.discard_before(1);
    assert_eq!(ring.len(), 3);
    assert_eq!(ring.first_clone(), Some(Item(2)));
    ring.discard_before(0);
    ring.truncate_from(3);
    assert_eq!(ring.len(), 3);
    ring.discard_before(3);
    assert_eq!(ring.len(), 0);
    assert!(ring.cursors_meet());
}

#[test]
fn ordered_search_finds_the_item_rated_equal() {
    let ring = ring_of(8, &[10, 20, 30, 40]);
    assert_eq!(ring.position_as_ordered(|i: &Item| i.0.cmp(&30)), Some(2));
    assert_eq!(ring.object_as_ordered(|i: &Item| i.0.cmp(&10)), Some(Item(10)));
    assert_eq!(ring.ref_as_ordered(|i: &Item| i.0.cmp(&40)), Some((3, &Item(40))));
    assert_eq!(ring.position_as_ordered(|i: &Item| i.0.cmp(&25)), None);
    assert_eq!(ring.ref_as_ordered(|_: &Item| Ordering::Less), None);
    let empty: RingBuf<Item> = RingBuf::new(2, None);
    assert_eq!(empty.position_as_ordered(|i: &Item| i.0.cmp(&1)), None);
}

#[test]
fn search_back_returns_the_nearest_match() {
    let ring = ring_of(8, &[1, 8, 3, 8, 5]);
    assert_eq!(ring.search_back(|i: &Item| i.0 == 8, 4), Some(&Item(8)));
    assert_eq!(ring.search_back(|i: &Item| i.0 < 4, 4), Some(&Item(3)));
    assert_eq!(ring.search_back(|i: &Item| i.0 < 4, 1), Some(&Item(1)));
    assert_eq!(ring.search_back(|i: &Item| i.0 == 5, 3), None);
    assert_eq!(ring.search_back(|i: &Item| i.0 > 100, 4), None);
}
