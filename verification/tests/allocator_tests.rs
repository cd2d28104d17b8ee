use atree::{Allocator, Token};

#[test]
fn new_pool_has_one_free_slot() {
    let mut pool: Allocator<u32> = Allocator::new();
    assert_eq!(pool.len(), 0);
    assert!(pool.is_empty());
    assert_eq!(pool.capacity(), 1);
    assert_eq!(pool.head(), Token::default());
    assert_eq!(pool.capacity(), 1);
    assert!(!pool.is_valid_token(Token::default()));
    assert!(pool.get(Token::default()).is_none());

    let other: Allocator<u32> = Allocator::default();
    assert_eq!(other.len(), 0);
    assert_eq!(other.capacity(), 1);
}

#[test]
fn insert_takes_the_head_of_the_free_list() {
    let mut pool = Allocator::new();
    let head = pool.head();
    let a = pool.insert("a");
    assert_eq!(a, head);
    assert_eq!(pool.len(), 1);
    assert!(!pool.is_empty());
    assert!(pool.is_valid_token(a));
    assert_eq!(pool.get(a), Some(&"a"));

    // the pool is full: it doubles
    let b = pool.insert("b");
    assert_ne!(a, b);
    assert_eq!(pool.capacity(), 2);
    let c = pool.insert("c");
    assert_eq!(pool.capacity(), 4);
    let d = pool.insert("d");
    assert_eq!(pool.capacity(), 4);
    assert_eq!(pool.len(), 4);
    assert_eq!(pool.get(b), Some(&"b"));
    assert_eq!(pool.get(c), Some(&"c"));
    assert_eq!(pool.get(d), Some(&"d"));
}

#[test]
fn remove_frees_the_slot_for_the_next_insert() {
    let mut pool = Allocator::new();
    let a = pool.insert(1);
    let b = pool.insert(2);
    let c = pool.insert(3);
    let capacity = pool.capacity();

    assert_eq!(pool.remove(b), Some(2));
    assert_eq!(pool.len(), 2);
    assert!(!pool.is_valid_token(b));
    assert_eq!(pool.get(b), None);
    // absence is a silent outcome
    assert_eq!(pool.remove(b), None);
    assert_eq!(pool.len(), 2);

    assert_eq!(pool.head(), b);
    assert_eq!(pool.insert(4), b);
    assert_eq!(pool.capacity(), capacity);
    assert_eq!(pool.get(a), Some(&1));
    assert_eq!(pool.get(b), Some(&4));
    assert_eq!(pool.get(c), Some(&3));
}

#[test]
fn removed_slots_come_back_last_in_first_out() {
    let mut pool = Allocator::new();
    let tokens: Vec<Token> = (0..8).map(|i| pool.insert(i)).collect();
    let capacity = pool.capacity();
    assert_eq!(capacity, 8);
    assert_eq!(pool.remove(tokens[1]), Some(1));
    assert_eq!(pool.remove(tokens[5]), Some(5));
    assert_eq!(pool.remove(tokens[3]), Some(3));
    assert_eq!(pool.insert(10), tokens[3]);
    assert_eq!(pool.insert(11), tokens[5]);
    assert_eq!(pool.insert(12), tokens[1]);
    assert_eq!(pool.capacity(), capacity);
    assert_eq!(pool.len(), 8);
    // now the pool is full again and grows
    pool.insert(13);
    assert_eq!(pool.capacity(), 16);
}

#[test]
fn get_mut_changes_the_element() {
    let mut pool = Allocator::new();
    let a = pool.insert(String::from("a"));
    pool.get_mut(a).unwrap().push('!');
    assert_eq!(pool.get(a).unwrap(), "a!");
    assert_eq!(pool.remove(a), Some(String::from("a!")));
    assert!(pool.get_mut(a).is_none());
}

#[test]
fn set_overwrites_in_place() {
    let mut pool = Allocator::new();
    let a = pool.insert(1);
    let b = pool.insert(2);
    assert_eq!(pool.set(a, 10), Some(1));
    assert_eq!(pool.get(a), Some(&10));
    assert_eq!(pool.get(b), Some(&2));
    assert_eq!(pool.len(), 2);

    // a free slot: the element goes where the next one goes
    let head = pool.head();
    assert_eq!(pool.set(head, 3), None);
    assert_eq!(pool.get(head), Some(&3));
    assert_eq!(pool.len(), 3);
}

#[test]
fn reserve_adds_free_slots_behind_the_free_list() {
    let mut pool = Allocator::new();
    let a = pool.insert('a');
    let b = pool.insert('b');
    assert_eq!(pool.capacity(), 2);
    assert_eq!(pool.remove(a), Some('a'));
    pool.reserve(3);
    assert_eq!(pool.capacity(), 5);
    assert_eq!(pool.len(), 1);
    assert_eq!(pool.get(b), Some(&'b'));
    // the slot that was free before comes first, then the new ones in order
    let first = pool.insert('c');
    assert_eq!(first, a);
    let second = pool.insert('d');
    let third = pool.insert('e');
    let fourth = pool.insert('f');
    assert_ne!(second, b);
    assert_ne!(second, third);
    assert_ne!(third, fourth);
    assert_eq!(pool.capacity(), 5);
    assert_eq!(pool.len(), 5);
    pool.insert('g');
    assert_eq!(pool.capacity(), 10);
}

#[test]
fn a_clone_is_a_pool_of_its_own() {
    let mut pool = Allocator::new();
    let a = pool.insert(1);
    let mut copy = pool.clone();
    assert_eq!(copy.remove(a), Some(1));
    assert_eq!(pool.get(a), Some(&1));
    assert_eq!(copy.len(), 0);
    assert_eq!(pool.len(), 1);
}
