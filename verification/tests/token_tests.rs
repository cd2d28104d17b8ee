use atree::iter::TraversalOrder;
use atree::Arena;

#[test]
fn replace_node() {
    // root node that we will attach subtrees to
    let root_data = "Indo-European";
    let (mut arena, root) = Arena::with_data(root_data);

    // the Germanic branch
    let germanic = root.append(&mut arena, "Germanic");
    let west = germanic.append(&mut arena, "West");
    west.append(&mut arena, "Scots");
    west.append(&mut arena, "English");

    // the slavic branch
    let slavic = root.append(&mut arena, "Slavic");
    slavic.append(&mut arena, "Polish");
    slavic.append(&mut arena, "Russian");

    let mut iter = root.subtree(&arena, TraversalOrder::Pre);
    assert_eq!(iter.next().map(|x| x.data), Some("Indo-European"));
    assert_eq!(iter.next().map(|x| x.data), Some("Germanic"));
    assert_eq!(iter.next().map(|x| x.data), Some("West"));
    assert_eq!(iter.next().map(|x| x.data), Some("Scots"));
    assert_eq!(iter.next().map(|x| x.data), Some("English"));
    assert_eq!(iter.next().map(|x| x.data), Some("Slavic"));
    assert_eq!(iter.next().map(|x| x.data), Some("Polish"));
    assert_eq!(iter.next().map(|x| x.data), Some("Russian"));
    assert!(iter.next().is_none());

    // the Romance branch
    let romance = arena.new_node("Romance");
    romance.append(&mut arena, "French");
    romance.append(&mut arena, "Italian");

    // replace_node germanic with romance
    germanic.replace_node(&mut arena, romance).unwrap();

    let mut iter = root.subtree(&arena, TraversalOrder::Pre);
    assert_eq!(iter.next().map(|x| x.data), Some("Indo-European"));
    assert_eq!(iter.next().map(|x| x.data), Some("Romance"));
    assert_eq!(iter.next().map(|x| x.data), Some("French"));
    assert_eq!(iter.next().map(|x| x.data), Some("Italian"));
    assert_eq!(iter.next().map(|x| x.data), Some("Slavic"));
    assert_eq!(iter.next().map(|x| x.data), Some("Polish"));
    assert_eq!(iter.next().map(|x| x.data), Some("Russian"));
    assert!(iter.next().is_none());

    // How about the other way around (replacing the slavic branch instead
    slavic.replace_node(&mut arena, germanic).unwrap();

    let mut iter = root.subtree(&arena, TraversalOrder::Pre);
    assert_eq!(iter.next().map(|x| x.data), Some("Indo-European"));
    assert_eq!(iter.next().map(|x| x.data), Some("Romance"));
    assert_eq!(iter.next().map(|x| x.data), Some("French"));
    assert_eq!(iter.next().map(|x| x.data), Some("Italian"));
    assert_eq!(iter.next().map(|x| x.data), Some("Germanic"));
    assert_eq!(iter.next().map(|x| x.data), Some("West"));
    assert_eq!(iter.next().map(|x| x.data), Some("Scots"));
    assert_eq!(iter.next().map(|x| x.data), Some("English"));
    assert!(iter.next().is_none());
}

#[test]
fn token_subtree_tokens_postord() {
    let root_data = 1usize;
    let (mut arena, root_token) = Arena::with_data(root_data);

    let first_child = root_token.append(&mut arena, 2usize);
    let second_child = root_token.append(&mut arena, 3usize);
    let third_child = root_token.append(&mut arena, 4usize);
    let first_grandchild = first_child.append(&mut arena, 0usize);
    let fourth_child = root_token.append(&mut arena, 5usize);
    let second_grandchild = second_child.append(&mut arena, 10usize);
    let third_grandchild = second_child.append(&mut arena, 20usize);
    let great_grandchild = third_grandchild.append(&mut arena, 20usize);

    let mut subtree = root_token.subtree_tokens(&arena, TraversalOrder::Post);
    assert_eq!(subtree.next(), Some(first_grandchild));
    assert_eq!(subtree.next(), Some(first_child));
    assert_eq!(subtree.next(), Some(second_grandchild));
    assert_eq!(subtree.next(), Some(great_grandchild));
    assert_eq!(subtree.next(), Some(third_grandchild));
    assert_eq!(subtree.next(), Some(second_child));
    assert_eq!(subtree.next(), Some(third_child));
    assert_eq!(subtree.next(), Some(fourth_child));
    assert_eq!(subtree.next(), Some(root_token));
    assert!(subtree.next().is_none());

    let mut subtree = great_grandchild.subtree_tokens(&arena, TraversalOrder::Post);
    assert_eq!(subtree.next(), Some(great_grandchild));
    assert!(subtree.next().is_none());
}

#[test]
fn token_subtree_tokens_levelord() {
    let root_data = 1usize;
    let (mut arena, root_token) = Arena::with_data(root_data);

    let first_child = root_token.append(&mut arena, 2usize);
    let second_child = root_token.append(&mut arena, 3usize);
    let third_child = root_token.append(&mut arena, 4usize);
    let first_grandchild = second_child.append(&mut arena, 10usize);
    let second_grandchild = second_child.append(&mut arena, 20usize);
    let fourth_child = root_token.append(&mut arena, 5usize);

    let mut subtree = root_token.subtree_tokens(&arena, TraversalOrder::Level);
    assert_eq!(subtree.next(), Some(root_token));
    assert_eq!(subtree.next(), Some(first_child));
    assert_eq!(subtree.next(), Some(second_child));
    assert_eq!(subtree.next(), Some(third_child));
    assert_eq!(subtree.next(), Some(fourth_child));
    assert_eq!(subtree.next(), Some(first_grandchild));
    assert_eq!(subtree.next(), Some(second_grandchild));
    assert!(subtree.next().is_none());

    let mut subtree = second_grandchild.subtree_tokens(&arena, TraversalOrder::Level);
    assert_eq!(subtree.next(), Some(second_grandchild));
    assert!(subtree.next().is_none());
}

#[test]
fn token_subtree_postord() {
    let root_data = "Indo-European";
    let (mut arena, root_token) = Arena::with_data(root_data);

    root_token.append(&mut arena, "Romance");
    root_token.append(&mut arena, "Germanic");
    let third_child = root_token.append(&mut arena, "Celtic");
    root_token.append(&mut arena, "Slavic");
    third_child.append(&mut arena, "Ulster");
    third_child.append(&mut arena, "Gaulish");

    let mut subtree = root_token.subtree(&arena, TraversalOrder::Post);
    assert_eq!(subtree.next().unwrap().data, "Romance");
    assert_eq!(subtree.next().unwrap().data, "Germanic");
    assert_eq!(subtree.next().unwrap().data, "Ulster");
    assert_eq!(subtree.next().unwrap().data, "Gaulish");
    assert_eq!(subtree.next().unwrap().data, "Celtic");
    assert_eq!(subtree.next().unwrap().data, "Slavic");
    assert_eq!(subtree.next().unwrap().data, "Indo-European");
    assert!(subtree.next().is_none());
}

#[test]
fn token_subtree_levelord() {
    let root_data = "Indo-European";
    let (mut arena, root_token) = Arena::with_data(root_data);

    root_token.append(&mut arena, "Romance");
    root_token.append(&mut arena, "Germanic");
    let third_child = root_token.append(&mut arena, "Slavic");
    root_token.append(&mut arena, "Hellenic");
    third_child.append(&mut arena, "Russian");
    third_child.append(&mut arena, "Ukrainian");

    let mut subtree = root_token.subtree(&arena, TraversalOrder::Level);
    assert_eq!(subtree.next().unwrap().data, "Indo-European");
    assert_eq!(subtree.next().unwrap().data, "Romance");
    assert_eq!(subtree.next().unwrap().data, "Germanic");
    assert_eq!(subtree.next().unwrap().data, "Slavic");
    assert_eq!(subtree.next().unwrap().data, "Hellenic");
    assert_eq!(subtree.next().unwrap().data, "Russian");
    assert_eq!(subtree.next().unwrap().data, "Ukrainian");
    assert!(subtree.next().is_none());
}

#[test]
fn subtree_postord_mut() {
    let root_data = 1usize;
    let (mut arena, root_token) = Arena::with_data(root_data);

    root_token.append(&mut arena, 2usize);
    root_token.append(&mut arena, 3usize);
    let third_child = root_token.append(&mut arena, 4usize);
    root_token.append(&mut arena, 5usize);
    third_child.append(&mut arena, 10usize);
    third_child.append(&mut arena, 20usize);

    let mut nodes = root_token.subtree_mut(&mut arena, TraversalOrder::Post);
    while let Some(x) = nodes.next() {
        x.data += 100;
    }

    let mut subtree = root_token.subtree(&arena, TraversalOrder::Post);
    assert_eq!(subtree.next().unwrap().data, 102);
    assert_eq!(subtree.next().unwrap().data, 103);
    assert_eq!(subtree.next().unwrap().data, 110);
    assert_eq!(subtree.next().unwrap().data, 120);
    assert_eq!(subtree.next().unwrap().data, 104);
    assert_eq!(subtree.next().unwrap().data, 105);
    assert_eq!(subtree.next().unwrap().data, 101);
    assert!(subtree.next().is_none());
}

#[test]
fn subtree_levelord_mut() {
    let root_data = 1usize;
    let (mut arena, root_token) = Arena::with_data(root_data);

    root_token.append(&mut arena, 2usize);
    root_token.append(&mut arena, 3usize);
    let third_child = root_token.append(&mut arena, 4usize);
    root_token.append(&mut arena, 5usize);
    third_child.append(&mut arena, 10usize);
    third_child.append(&mut arena, 20usize);

    let mut nodes = root_token.subtree_mut(&mut arena, TraversalOrder::Level);
    while let Some(x) = nodes.next() {
        x.data += 100;
    }

    let mut subtree = root_token.subtree(&arena, TraversalOrder::Level);
    assert_eq!(subtree.next().unwrap().data, 101);
    assert_eq!(subtree.next().unwrap().data, 102);
    assert_eq!(subtree.next().unwrap().data, 103);
    assert_eq!(subtree.next().unwrap().data, 104);
    assert_eq!(subtree.next().unwrap().data, 105);
    assert_eq!(subtree.next().unwrap().data, 110);
    assert_eq!(subtree.next().unwrap().data, 120);
    assert!(subtree.next().is_none());
}

#[test]
fn remove_descendants() {
    let root_data = 1usize;
    let (mut arena, root_token) = Arena::with_data(root_data);

    let first_child = root_token.append(&mut arena, 2usize);
    let second_child = root_token.append(&mut arena, 3usize);
    let third_child = root_token.append(&mut arena, 4usize);
    let fourth_child = root_token.append(&mut arena, 5usize);
    let grandchild_1 = third_child.append(&mut arena, 10usize);
    third_child.append(&mut arena, 20usize);
    grandchild_1.append(&mut arena, 100usize);

    assert_eq!(arena.node_count(), 8);

    third_child.remove_descendants(&mut arena);

    let mut subtree = root_token.subtree_tokens(&arena, TraversalOrder::Pre);
    assert_eq!(subtree.next(), Some(root_token));
    assert_eq!(subtree.next(), Some(first_child));
    assert_eq!(subtree.next(), Some(second_child));
    assert_eq!(subtree.next(), Some(third_child));
    assert_eq!(subtree.next(), Some(fourth_child));
    assert!(subtree.next().is_none());

    println!("{:?}", arena.capacity());
    assert_eq!(arena.node_count(), 5);
}
