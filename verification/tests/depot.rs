use arcadia::depot::{Slab, SlabIndex};
use arcadia::dispatcher::{Dispatcher, Message};

#[test]
fn slab_hands_out_indices_in_order() {
    let mut s: Slab<u32> = Slab::new();
    assert_eq!(s.len(), 0);
    let a = s.insert(10);
    let b = s.insert(20);
    assert_eq!(a, SlabIndex(0));
    assert_eq!(b, SlabIndex(1));
    assert_eq!(s.len(), 2);
    assert_eq!(s.get(a), Some(&10));
    assert_eq!(s.get(b), Some(&20));
    assert_eq!(s.get(SlabIndex(2)), None);
}

#[test]
fn slab_reuses_the_slot_freed_last() {
    let mut s: Slab<u32> = Slab::new();
    let a = s.insert(10);
    let b = s.insert(20);
    let c = s.insert(30);
    assert_eq!(s.remove(a), Some(10));
    assert_eq!(s.remove(c), Some(30));
    assert_eq!(s.remove(c), None);
    assert_eq!(s.len(), 1);
    assert_eq!(s.get(a), None);
    assert_eq!(s.insert(40), c);
    assert_eq!(s.insert(50), a);
    assert_eq!(s.insert(60), SlabIndex(3));
    assert_eq!(s.get(b), Some(&20));
    assert_eq!(s.len(), 4);
}

#[test]
fn slab_get_mut_changes_the_item() {
    let mut s: Slab<u32> = Slab::new();
    let a = s.insert(1);
    *s.get_mut(a).unwrap() = 7;
    assert_eq!(s.get(a), Some(&7));
    assert!(s.get_mut(SlabIndex(5)).is_none());
}

#[test]
fn slab_walks_occupied_slots_in_order() {
    let mut s: Slab<u32> = Slab::new();
    let a = s.insert(1);
    let _b = s.insert(2);
    let _c = s.insert(3);
    s.remove(a);
    let mut it = s.iter();
    assert_eq!(it.next(), Some(SlabIndex(1)));
    assert_eq!(it.next(), Some(SlabIndex(2)));
    assert_eq!(it.next(), None);
    let mut items = s.all();
    assert_eq!(items.next(), Some(&2));
    assert_eq!(items.next(), Some(&3));
    assert_eq!(items.next(), None);
}

#[test]
fn dispatcher_is_first_in_first_out() {
    let mut d: Dispatcher<Message> = Dispatcher::new();
    assert_eq!(d.len(), 0);
    d.put(Message::Death { id: 1 });
    d.put(Message::Empty);
    d.put(Message::Death { id: 2 });
    assert_eq!(d.len(), 3);
    assert_eq!(d.get(), Message::Death { id: 1 });
    assert_eq!(d.get(), Message::Empty);
    assert_eq!(d.get(), Message::Death { id: 2 });
    assert_eq!(d.len(), 0);
    assert_eq!(Message::default(), Message::Empty);
}
