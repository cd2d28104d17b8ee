use atree::iter::TraversalOrder;
use atree::Arena;

#[test]
fn node_subtree_tokens_postord() {
    let root_data = 1usize;
    let (mut arena, root_token) = Arena::with_data(root_data);

    let first_child = root_token.append(&mut arena, 2usize);
    let second_child = root_token.append(&mut arena, 3usize);
    let third_child = root_token.append(&mut arena, 4usize);
    let first_grandchild = second_child.append(&mut arena, 10usize);
    let second_grandchild = second_child.append(&mut arena, 20usize);
    let fourth_child = root_token.append(&mut arena, 5usize);

    let root = &arena[root_token];
    let mut subtree = root.subtree_tokens(&arena, TraversalOrder::Post);
    assert_eq!(subtree.next(), Some(first_child));
    assert_eq!(subtree.next(), Some(first_grandchild));
    assert_eq!(subtree.next(), Some(second_grandchild));
    assert_eq!(subtree.next(), Some(second_child));
    assert_eq!(subtree.next(), Some(third_child));
    assert_eq!(subtree.next(), Some(fourth_child));
    assert_eq!(subtree.next(), Some(root_token));
    assert!(subtree.next().is_none());

    let second_child_node = &arena[second_child];
    let mut subtree = second_child_node.subtree_tokens(&arena, TraversalOrder::Post);
    assert_eq!(subtree.next(), Some(first_grandchild));
    assert_eq!(subtree.next(), Some(second_grandchild));
    assert_eq!(subtree.next(), Some(second_child));
    assert!(subtree.next().is_none());
}

#[test]
fn node_subtree_postord() {
    let root_data = "Indo-European";
    let (mut arena, root_token) = Arena::with_data(root_data);

    root_token.append(&mut arena, "Romance");
    root_token.append(&mut arena, "Germanic");
    let third_child = root_token.append(&mut arena, "Celtic");
    root_token.append(&mut arena, "Slavic");
    third_child.append(&mut arena, "Ulster");
    third_child.append(&mut arena, "Gaulish");

    let root = &arena[root_token];
    let mut subtree = root.subtree(&arena, TraversalOrder::Post);
    assert_eq!(subtree.next().unwrap().data, "Romance");
    assert_eq!(subtree.next().unwrap().data, "Germanic");
    assert_eq!(subtree.next().unwrap().data, "Ulster");
    assert_eq!(subtree.next().unwrap().data, "Gaulish");
    assert_eq!(subtree.next().unwrap().data, "Celtic");
    assert_eq!(subtree.next().unwrap().data, "Slavic");
    assert_eq!(subtree.next().unwrap().data, "Indo-European");
    assert!(subtree.next().is_none());
}

#[test]
fn node_subtree_tokens_levelord() {
    let root_data = 1usize;
    let (mut arena, root_token) = Arena::with_data(root_data);

    let first_child = root_token.append(&mut arena, 2usize);
    let second_child = root_token.append(&mut arena, 3usize);
    let third_child = root_token.append(&mut arena, 4usize);
    let first_grandchild = second_child.append(&mut arena, 10usize);
    let second_grandchild = second_child.append(&mut arena, 20usize);
    let fourth_child = root_token.append(&mut arena, 5usize);

    let root = &arena[root_token];
    let mut subtree = root.subtree_tokens(&arena, TraversalOrder::Level);
    assert_eq!(subtree.next(), Some(root_token));
    assert_eq!(subtree.next(), Some(first_child));
    assert_eq!(subtree.next(), Some(second_child));
    assert_eq!(subtree.next(), Some(third_child));
    assert_eq!(subtree.next(), Some(fourth_child));
    assert_eq!(subtree.next(), Some(first_grandchild));
    assert_eq!(subtree.next(), Some(second_grandchild));
    assert!(subtree.next().is_none());
}

#[test]
fn node_subtree_levelord() {
    let root_data = "Indo-European";
    let (mut arena, root_token) = Arena::with_data(root_data);

    root_token.append(&mut arena, "Romance");
    root_token.append(&mut arena, "Germanic");
    let third_child = root_token.append(&mut arena, "Slavic");
    root_token.append(&mut arena, "Hellenic");
    third_child.append(&mut arena, "Russian");
    third_child.append(&mut arena, "Ukrainian");

    let root = &arena[root_token];
    let mut subtree = root.subtree(&arena, TraversalOrder::Level);
    assert_eq!(subtree.next().unwrap().data, "Indo-European");
    assert_eq!(subtree.next().unwrap().data, "Romance");
    assert_eq!(subtree.next().unwrap().data, "Germanic");
    assert_eq!(subtree.next().unwrap().data, "Slavic");
    assert_eq!(subtree.next().unwrap().data, "Hellenic");
    assert_eq!(subtree.next().unwrap().data, "Russian");
    assert_eq!(subtree.next().unwrap().data, "Ukrainian");
    assert!(subtree.next().is_none());
}
