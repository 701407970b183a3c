use std::cell::Cell;
use std::rc::Rc;

use lazy_rc::{Arena, LazyRc};

/// Counts how often values carrying it are finalized.
struct DropTest {
    dropped: bool,
    count: Rc<Cell<u32>>,
}

impl DropTest {
    fn new(count: &Rc<Cell<u32>>) -> Self {
        Self { dropped: false, count: count.clone() }
    }
}

impl Drop for DropTest {
    fn drop(&mut self) {
        assert!(!self.dropped);
        self.dropped = true;
        self.count.set(self.count.get() + 1);
    }
}

#[test]
fn test_owned() {
    let drops = Rc::new(Cell::new(0u32));
    let mut plain = Arena::new();
    let single = LazyRc::new(&mut plain, Box::new((1, DropTest::new(&drops))));
    drop(single.drop(&mut plain));
    assert_eq!(drops.get(), 1);

    let mut arena = Arena::new();
    let mut thing = LazyRc::new(&mut arena, Box::new((Cell::new(2), DropTest::new(&drops))));
    let thing2 = thing.clone(&mut arena);
    let thing3 = thing.clone(&mut arena);
    assert_eq!(thing2.deref(&arena).0.get(), 2);
    assert_eq!(thing3.deref(&arena).0.get(), 2);
    assert_eq!(thing.deref(&arena).0.get(), 2);

    thing2.deref(&arena).0.set(5);

    assert_eq!(thing2.deref(&arena).0.get(), 5);
    assert_eq!(thing3.deref(&arena).0.get(), 5);
    assert_eq!(thing.deref(&arena).0.get(), 5);

    drop(thing.drop(&mut arena));
    assert_eq!(drops.get(), 1);
    drop(thing3.drop(&mut arena));
    assert_eq!(drops.get(), 1);
    drop(thing2.drop(&mut arena));
    assert_eq!(drops.get(), 2);
}

#[test]
fn single_owner_drop_returns_value_once() {
    let drops = Rc::new(Cell::new(0u32));
    let mut arena = Arena::new();
    let h = LazyRc::new(&mut arena, Box::new((7, DropTest::new(&drops))));
    assert!(!h.is_shared());
    assert_eq!(h.live_count(&arena), 1);
    let value = h.drop(&mut arena);
    assert!(value.is_some());
    assert_eq!(value.as_ref().map(|v| v.0), Some(7));
    assert_eq!(drops.get(), 0);
    drop(value);
    assert_eq!(drops.get(), 1);
}

#[test]
fn clones_share_one_value() {
    let mut arena = Arena::new();
    let mut h = LazyRc::new(&mut arena, Box::new(Cell::new(10)));
    let mut handles = Vec::new();
    for _ in 0..4 {
        handles.push(h.clone(&mut arena));
    }
    assert!(std::ptr::eq(h.deref(&arena), handles[3].deref(&arena)));
    handles[1].deref(&arena).set(42);
    assert_eq!(h.deref(&arena).get(), 42);
    for other in &handles {
        assert_eq!(other.deref(&arena).get(), 42);
        assert!(other.is_shared());
    }
    assert!(h.is_shared());
}

#[test]
fn finalized_once_whatever_the_order() {
    let orders: [[usize; 4]; 3] = [[0, 1, 2, 3], [3, 2, 1, 0], [2, 0, 3, 1]];
    for order in orders {
        let drops = Rc::new(Cell::new(0u32));
        let mut arena = Arena::new();
        let mut first = LazyRc::new(&mut arena, Box::new(DropTest::new(&drops)));
        let a = first.clone(&mut arena);
        let b = first.clone(&mut arena);
        let c = first.clone(&mut arena);
        let mut family: Vec<Option<LazyRc<DropTest>>> = vec![Some(first), Some(a), Some(b), Some(c)];
        let mut handed_back = 0;
        for (step, i) in order.iter().enumerate() {
            let h = family[*i].take().unwrap();
            let value = h.drop(&mut arena);
            if value.is_some() {
                handed_back += 1;
                assert_eq!(step, 3);
            }
            drop(value);
        }
        assert_eq!(handed_back, 1);
        assert_eq!(drops.get(), 1);
    }
}

#[test]
fn no_counter_until_cloned() {
    let mut arena = Arena::new();
    let h = LazyRc::new(&mut arena, Box::new(5u64));
    let g = LazyRc::new(&mut arena, Box::new(6u64));
    assert_eq!(*h.deref(&arena), 5);
    assert_eq!(*g.deref(&arena), 6);
    assert_eq!(arena.counter_allocations(), 0);
    assert_eq!(h.drop(&mut arena), Some(Box::new(5)));
    assert_eq!(arena.counter_allocations(), 0);

    let mut g = g;
    let mut g2 = g.clone(&mut arena);
    assert_eq!(arena.counter_allocations(), 1);
    let g3 = g.clone(&mut arena);
    let g4 = g2.clone(&mut arena);
    assert_eq!(arena.counter_allocations(), 1);
    assert_eq!(g.drop(&mut arena), None);
    assert_eq!(g2.drop(&mut arena), None);
    assert_eq!(g3.drop(&mut arena), None);
    assert_eq!(g4.drop(&mut arena), Some(Box::new(6)));
    assert_eq!(arena.counter_allocations(), 1);
}

#[test]
fn freed_counter_is_taken_again() {
    let mut arena = Arena::new();
    let mut a = LazyRc::new(&mut arena, Box::new('a'));
    let a2 = a.clone(&mut arena);
    assert_eq!(arena.counter_allocations(), 1);
    assert_eq!(a.drop(&mut arena), None);
    assert_eq!(a2.drop(&mut arena), Some(Box::new('a')));

    let mut b = LazyRc::new(&mut arena, Box::new('b'));
    assert_eq!(*b.deref(&arena), 'b');
    let b2 = b.clone(&mut arena);
    assert_eq!(arena.counter_allocations(), 1);
    assert_eq!(b2.live_count(&arena), 2);
    let mut c = LazyRc::new(&mut arena, Box::new('c'));
    let c2 = c.clone(&mut arena);
    assert_eq!(arena.counter_allocations(), 2);
    assert_eq!(*c2.deref(&arena), 'c');
    assert_eq!(*b2.deref(&arena), 'b');
}

#[test]
fn live_count_follows_clones_and_drops() {
    let mut arena = Arena::new();
    let mut h = LazyRc::new(&mut arena, Box::new(String::from("x")));
    assert_eq!(h.live_count(&arena), 1);
    let a = h.clone(&mut arena);
    assert_eq!(h.live_count(&arena), 2);
    let b = h.clone(&mut arena);
    let mut c = h.clone(&mut arena);
    assert_eq!(c.live_count(&arena), 4);
    assert_eq!(a.drop(&mut arena), None);
    assert_eq!(h.live_count(&arena), 3);
    let d = c.clone(&mut arena);
    assert_eq!(b.drop(&mut arena), None);
    assert_eq!(d.live_count(&arena), 3);
    assert_eq!(h.drop(&mut arena), None);
    assert_eq!(c.drop(&mut arena), None);
    assert_eq!(d.live_count(&arena), 1);
    assert_eq!(d.drop(&mut arena), Some(Box::new(String::from("x"))));
}

#[test]
fn scenario_mutation_seen_by_all_then_finalized_last() {
    let drops = Rc::new(Cell::new(0u32));
    let mut arena = Arena::new();
    let mut h = LazyRc::new(&mut arena, Box::new((Cell::new(0), DropTest::new(&drops))));
    let h2 = h.clone(&mut arena);
    let h3 = h.clone(&mut arena);
    h2.deref(&arena).0.set(5);
    assert_eq!(h.deref(&arena).0.get(), 5);
    assert_eq!(h2.deref(&arena).0.get(), 5);
    assert_eq!(h3.deref(&arena).0.get(), 5);
    drop(h.drop(&mut arena));
    assert_eq!(drops.get(), 0);
    drop(h3.drop(&mut arena));
    assert_eq!(drops.get(), 0);
    drop(h2.drop(&mut arena));
    assert_eq!(drops.get(), 1);
}

#[test]
fn from_vec_keeps_elements() {
    let mut arena = Arena::new();
    let h = LazyRc::from_vec(&mut arena, vec![1u8, 2, 3]);
    assert_eq!(h.deref(&arena), &[1u8, 2, 3][..]);
    let empty = LazyRc::from_vec(&mut arena, Vec::<u8>::new());
    assert_eq!(empty.deref(&arena).len(), 0);
    let back = h.drop(&mut arena).unwrap();
    assert_eq!(back.into_vec(), vec![1u8, 2, 3]);
}

#[test]
fn from_string_keeps_text() {
    let mut arena = Arena::new();
    let mut h = LazyRc::from_string(&mut arena, String::from("hello"));
    let g = h.clone(&mut arena);
    assert_eq!(g.deref(&arena), "hello");
    assert_eq!(h.deref(&arena), "hello");
    assert_eq!(g.drop(&mut arena), None);
    assert_eq!(h.drop(&mut arena).as_deref(), Some("hello"));
}

#[test]
fn default_holds_default_value() {
    let mut arena = Arena::default();
    let h: LazyRc<i32> = LazyRc::default(&mut arena);
    assert_eq!(*h.deref(&arena), 0);
    assert!(!h.is_shared());
    let v: LazyRc<Vec<u8>> = LazyRc::default(&mut Arena::new());
    assert!(!v.is_shared());
}
