use pegrex::state_set::StateSet;

#[test]
fn a_state_is_held_once() {
    let mut set = StateSet::new();
    assert_eq!(set.len(), 0);
    assert!(set.insert(3));
    assert!(set.insert(1));
    assert!(!set.insert(3));
    assert_eq!(set.len(), 2);
    assert_eq!(set.get(0), 3);
    assert_eq!(set.get(1), 1);
    assert!(set.contains(1));
    assert!(!set.contains(2));
}

#[test]
fn remove_and_clear() {
    let mut set = StateSet::new();
    set.insert(1);
    set.insert(2);
    set.insert(3);
    assert!(set.remove(2));
    assert!(!set.remove(2));
    assert_eq!(set.len(), 2);
    assert!(set.contains(1) && set.contains(3) && !set.contains(2));
    set.clear();
    assert_eq!(set.len(), 0);
    assert!(!set.contains(1));
}

#[test]
fn union_keeps_the_members_in_place() {
    let mut set = StateSet::new();
    set.insert(5);
    set.insert(6);
    let mut other = StateSet::new();
    other.insert(6);
    other.insert(7);
    set.union_with(&other);
    assert_eq!(set.len(), 3);
    assert_eq!(set.get(0), 5);
    assert_eq!(set.get(1), 6);
    assert_eq!(set.get(2), 7);
}

#[test]
fn sets_compare_by_their_members() {
    let mut a = StateSet::new();
    a.insert(1);
    a.insert(2);
    let mut b = StateSet::new();
    b.insert(2);
    assert!(b.is_subset_of(&a));
    assert!(!a.is_subset_of(&b));
    assert!(a != b);
    b.insert(1);
    assert!(a == b);
    assert!(a.clone() == a);
}
