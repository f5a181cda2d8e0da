use anathema::Slab;

fn get_slab() -> Slab<u32> {
    let mut slab = Slab::empty();

    slab.push(5);
    slab.push(10);
    slab.push(15);

    slab
}

#[test]
fn get() {
    let mut slab = Slab::empty();
    let index = slab.push(123u8);
    let val = slab.get(index).unwrap();
    assert_eq!(*val, 123);
}

#[test]
fn get_mut() {
    let mut slab = Slab::empty();
    let index = slab.push(100u8);
    let val = slab.get_mut(index).unwrap();
    assert_eq!(*val, 100);
}

#[test]
fn push() {
    let mut slab = get_slab();
    let next_id = slab.count();
    let index = slab.push(100);
    assert_eq!(index, next_id);
}

#[test]
fn remove() {
    let mut slab = get_slab();
    assert_eq!(slab.remove(0), 5);
}

#[test]
fn multiple_removes() {
    let mut slab = get_slab();
    assert_eq!(None, slab.next_id());
    slab.remove(0);
    assert_eq!(Some(0), slab.next_id());
    slab.remove(1);
    assert_eq!(Some(1), slab.next_id());
    slab.remove(2);
    assert_eq!(Some(2), slab.next_id());
    slab.push(123);
    assert_eq!(Some(1), slab.next_id());
    slab.push(456);
    assert_eq!(Some(0), slab.next_id());
    slab.push(789);
    assert_eq!(None, slab.next_id());
}

#[test]
fn removed_slot_is_reused_and_values_kept() {
    let mut slab = get_slab();
    slab.remove(1);
    assert!(slab.get(1).is_none());
    assert_eq!(slab.count(), 2);
    assert_eq!(slab.push(99), 1);
    assert_eq!(slab.iter(), vec![&5, &99, &15]);
    assert_eq!(slab.find(&15), Some(2));
    assert_eq!(slab.find(&7), None);
    *slab.get_mut(0).unwrap() = 6;
    assert_eq!(slab.get(0), Some(&6));
    assert!(slab.get_mut(7).is_none());
}

#[test]
fn with_capacity_starts_empty() {
    let slab: Slab<u8> = Slab::with_capacity(4);
    assert_eq!(slab.count(), 0);
    assert!(slab.get(0).is_none());
}
