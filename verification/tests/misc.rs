use xo_os::mem::buddy::single::entry::Entry;
use xo_os::mem::inplace_list::{InplaceList, Node};
use xo_os::sync::spinlock::SpinLock;
use xo_os::test_lib::{five, two};

#[test]
fn two_less_than_five() {
    assert!(two() < five());
}

#[test]
fn region_entries() {
    let mut a = Entry::new(4);
    let mut b = Entry::new(5);
    assert_eq!(4, a.num());
    assert_eq!(5, a.get_buddy());
    assert_eq!(6, a.buddy_on_level(1));
    assert!(a.is_free());
    assert!(a.ready(&b));
    b.set_level(1);
    assert!(!a.ready(&b));
    a.set_occupied();
    assert!(a.is_occupied());
    a.set_free();
    a.set_level(1);
    assert_eq!(1, a.level());
    assert_eq!(6, a.get_buddy());
}

#[test]
fn list_in_an_arena() {
    let mut nodes = vec![Node::new(10), Node::new(20), Node::new(30)];
    let mut list: InplaceList<i32> = InplaceList::new();
    list.insert(&mut nodes, 0);
    list.insert(&mut nodes, 2);
    assert_eq!(Some(0), nodes[2].prev());
    list.remove(&mut nodes, 2);
    assert_eq!(None, nodes[2].prev());
    // a detached node is left as it is
    list.remove(&mut nodes, 1);
    list.remove(&mut nodes, 2);
    assert_eq!(None, nodes[1].prev());
    list.remove(&mut nodes, 0);
    assert_eq!(None, nodes[0].prev());
    *nodes[1].as_mut() += 1;
    assert_eq!(21, *nodes[1].as_ref());
}

#[test]
fn tickets_are_served_in_order() {
    let lock = SpinLock::new();
    let first = lock.take_ticket();
    let second = lock.take_ticket();
    assert_eq!(first + 1, second);
    assert_eq!(first, lock.now_serving());
    lock.release();
    assert_eq!(second, lock.now_serving());
}
