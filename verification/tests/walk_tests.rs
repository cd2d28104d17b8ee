use atree::iter::TraversalOrder;
use atree::Arena;

#[test]
fn three_orders_of_one_tree() {
    // root -> {a, b, c}, b -> {d, e}
    let (mut arena, root) = Arena::with_data("root");
    let a = root.append(&mut arena, "a");
    let b = root.append(&mut arena, "b");
    let c = root.append(&mut arena, "c");
    let d = b.append(&mut arena, "d");
    let e = b.append(&mut arena, "e");

    let mut pre = Vec::new();
    let mut tokens = root.subtree_tokens(&arena, TraversalOrder::Pre);
    while let Some(t) = tokens.next() {
        pre.push(t);
    }
    assert_eq!(pre, vec![root, a, b, d, e, c]);

    let mut post = Vec::new();
    let mut tokens = root.subtree_tokens(&arena, TraversalOrder::Post);
    while let Some(t) = tokens.next() {
        post.push(t);
    }
    assert_eq!(post, vec![a, d, e, b, c, root]);

    let mut level = Vec::new();
    let mut tokens = root.subtree_tokens(&arena, TraversalOrder::Level);
    while let Some(t) = tokens.next() {
        level.push(t);
    }
    assert_eq!(level, vec![root, a, b, c, d, e]);
}

#[test]
fn exhausted_iterators_stay_exhausted() {
    let (mut arena, root) = Arena::with_data(1usize);
    root.append(&mut arena, 2usize);
    for order in [TraversalOrder::Pre, TraversalOrder::Post, TraversalOrder::Level] {
        let mut tokens = root.subtree_tokens(&arena, order);
        assert!(tokens.next().is_some());
        assert!(tokens.next().is_some());
        assert!(tokens.next().is_none());
        assert!(tokens.next().is_none());
    }
}

#[test]
fn subtree_tokens_preord() {
    let (mut arena, root_token) = Arena::with_data("Indo-European");
    let first_child = root_token.append(&mut arena, "Romance");
    let second_child = root_token.append(&mut arena, "Germanic");
    let third_child = root_token.append(&mut arena, "Slavic");
    let first_grandchild = second_child.append(&mut arena, "English");
    let second_grandchild = second_child.append(&mut arena, "Icelandic");
    let fourth_child = root_token.append(&mut arena, "Celtic");

    let mut subtree = root_token.subtree_tokens(&arena, TraversalOrder::Pre);
    assert_eq!(subtree.next(), Some(root_token));
    assert_eq!(subtree.next(), Some(first_child));
    assert_eq!(subtree.next(), Some(second_child));
    assert_eq!(subtree.next(), Some(first_grandchild));
    assert_eq!(subtree.next(), Some(second_grandchild));
    assert_eq!(subtree.next(), Some(third_child));
    assert_eq!(subtree.next(), Some(fourth_child));
    assert!(subtree.next().is_none());

    let mut subtree = second_grandchild.subtree_tokens(&arena, TraversalOrder::Pre);
    assert_eq!(subtree.next(), Some(second_grandchild));
    assert!(subtree.next().is_none());

    let second_child_node = arena.get(second_child).unwrap();
    let mut subtree = second_child_node.subtree_tokens(&arena, TraversalOrder::Pre);
    assert_eq!(subtree.next(), Some(second_child));
    assert_eq!(subtree.next(), Some(first_grandchild));
    assert_eq!(subtree.next(), Some(second_grandchild));
    assert!(subtree.next().is_none());
}

#[test]
fn ancestors_go_up_to_the_root() {
    let (mut arena, root_token) = Arena::with_data("Indo-European");
    let child_token = root_token.append(&mut arena, "Germanic");
    let grandchild_token = child_token.append(&mut arena, "English");

    let mut ancestors_tokens = grandchild_token.ancestors_tokens(&arena);
    assert_eq!(ancestors_tokens.next(), Some(child_token));
    assert_eq!(ancestors_tokens.next(), Some(root_token));
    assert!(ancestors_tokens.next().is_none());

    let mut ancestors = grandchild_token.ancestors(&arena);
    assert_eq!(ancestors.next().unwrap().data, "Germanic");
    assert_eq!(ancestors.next().unwrap().data, "Indo-European");
    assert!(ancestors.next().is_none());

    let node = arena.get(grandchild_token).unwrap();
    let mut ancestors_tokens = node.ancestors_tokens(&arena);
    assert_eq!(ancestors_tokens.next(), Some(child_token));
    assert_eq!(ancestors_tokens.next(), Some(root_token));
    assert!(ancestors_tokens.next().is_none());
    let mut ancestors = node.ancestors(&arena);
    assert_eq!(ancestors.next().unwrap().data, "Germanic");
    assert_eq!(ancestors.next().unwrap().data, "Indo-European");
    assert!(ancestors.next().is_none());

    let mut none = root_token.ancestors_tokens(&arena);
    assert!(none.next().is_none());
}

#[test]
fn siblings_before_and_after() {
    let (mut arena, root_token) = Arena::with_data("Indo-European");
    let first = root_token.append(&mut arena, "Germanic");
    let second = root_token.append(&mut arena, "Romance");
    let third = root_token.append(&mut arena, "Slavic");
    let fourth = root_token.append(&mut arena, "Hellenic");

    let mut tokens = third.preceding_siblings_tokens(&arena);
    assert_eq!(tokens.next(), Some(second));
    assert_eq!(tokens.next(), Some(first));
    assert!(tokens.next().is_none());

    let mut tokens = second.following_siblings_tokens(&arena);
    assert_eq!(tokens.next(), Some(third));
    assert_eq!(tokens.next(), Some(fourth));
    assert!(tokens.next().is_none());

    let mut nodes = third.preceding_siblings(&arena);
    assert_eq!(nodes.next().unwrap().data, "Romance");
    assert_eq!(nodes.next().unwrap().data, "Germanic");
    assert!(nodes.next().is_none());

    let mut nodes = second.following_siblings(&arena);
    assert_eq!(nodes.next().unwrap().data, "Slavic");
    assert_eq!(nodes.next().unwrap().data, "Hellenic");
    assert!(nodes.next().is_none());

    let node = arena.get(third).unwrap();
    let mut tokens = node.preceding_siblings_tokens(&arena);
    assert_eq!(tokens.next(), Some(second));
    assert_eq!(tokens.next(), Some(first));
    assert!(tokens.next().is_none());
    let mut tokens = node.following_siblings_tokens(&arena);
    assert_eq!(tokens.next(), Some(fourth));
    assert!(tokens.next().is_none());
    let mut nodes = node.preceding_siblings(&arena);
    assert_eq!(nodes.next().unwrap().data, "Romance");
    let mut nodes = node.following_siblings(&arena);
    assert_eq!(nodes.next().unwrap().data, "Hellenic");
    assert!(nodes.next().is_none());
}

#[test]
fn children_in_order_of_insertion() {
    let (mut arena, root_token) = Arena::with_data("Indo-European");
    let first = root_token.append(&mut arena, "Romance");
    let second = root_token.append(&mut arena, "Germanic");
    let third = root_token.append(&mut arena, "Slavic");
    let fourth = root_token.append(&mut arena, "Hellenic");
    third.append(&mut arena, "Polish");

    let mut tokens = root_token.children_tokens(&arena);
    assert_eq!(tokens.next(), Some(first));
    assert_eq!(tokens.next(), Some(second));
    assert_eq!(tokens.next(), Some(third));
    assert_eq!(tokens.next(), Some(fourth));
    assert!(tokens.next().is_none());

    let mut nodes = root_token.children(&arena);
    assert_eq!(nodes.next().unwrap().data, "Romance");
    assert_eq!(nodes.next().unwrap().data, "Germanic");
    assert_eq!(nodes.next().unwrap().data, "Slavic");
    assert_eq!(nodes.next().unwrap().data, "Hellenic");
    assert!(nodes.next().is_none());

    let root = arena.get(root_token).unwrap();
    let mut tokens = root.children_tokens(&arena);
    assert_eq!(tokens.next(), Some(first));
    let mut nodes = root.children(&arena);
    assert_eq!(nodes.next().unwrap().data, "Romance");

    let mut none = first.children_tokens(&arena);
    assert!(none.next().is_none());
}

#[test]
fn ancestors_mut_changes_the_ancestors() {
    let (mut arena, root_token) = Arena::with_data(1usize);
    let child_token = root_token.append(&mut arena, 2usize);
    let grandchild_token = child_token.append(&mut arena, 3usize);
    let great_grandchild_token = grandchild_token.append(&mut arena, 4usize);
    let ggreat_grandchild_token = great_grandchild_token.append(&mut arena, 5usize);

    let mut nodes = ggreat_grandchild_token.ancestors_mut(&mut arena);
    while let Some(x) = nodes.next() {
        x.data += 2;
    }

    let mut ancestors = ggreat_grandchild_token.ancestors(&arena);
    assert_eq!(ancestors.next().unwrap().data, 6usize);
    assert_eq!(ancestors.next().unwrap().data, 5usize);
    assert_eq!(ancestors.next().unwrap().data, 4usize);
    assert_eq!(ancestors.next().unwrap().data, 3usize);
    assert!(ancestors.next().is_none());
    assert_eq!(arena.get(ggreat_grandchild_token).unwrap().data, 5usize);
}

#[test]
fn following_siblings_mut_changes_the_siblings_after() {
    let (mut arena, root_token) = Arena::with_data(1usize);
    root_token.append(&mut arena, 2usize);
    let second_child_token = root_token.append(&mut arena, 3usize);
    root_token.append(&mut arena, 4usize);
    root_token.append(&mut arena, 5usize);

    let mut nodes = second_child_token.following_siblings_mut(&mut arena);
    while let Some(x) = nodes.next() {
        x.data += 2;
    }

    let mut children = root_token.children(&arena);
    assert_eq!(children.next().unwrap().data, 2usize);
    assert_eq!(children.next().unwrap().data, 3usize);
    assert_eq!(children.next().unwrap().data, 6usize);
    assert_eq!(children.next().unwrap().data, 7usize);
    assert!(children.next().is_none());
}

#[test]
fn preceding_siblings_mut_changes_the_siblings_before() {
    let (mut arena, root_token) = Arena::with_data(1usize);
    root_token.append(&mut arena, 2usize);
    root_token.append(&mut arena, 3usize);
    root_token.append(&mut arena, 4usize);
    let fourth_child_token = root_token.append(&mut arena, 5usize);

    let mut nodes = fourth_child_token.preceding_siblings_mut(&mut arena);
    while let Some(x) = nodes.next() {
        x.data += 5;
    }

    let mut children = root_token.children(&arena);
    assert_eq!(children.next().unwrap().data, 7usize);
    assert_eq!(children.next().unwrap().data, 8usize);
    assert_eq!(children.next().unwrap().data, 9usize);
    assert_eq!(children.next().unwrap().data, 5usize);
    assert!(children.next().is_none());
}

#[test]
fn children_mut_changes_the_children_only() {
    let (mut arena, root_token) = Arena::with_data(1usize);
    root_token.append(&mut arena, 2usize);
    root_token.append(&mut arena, 3usize);
    let third_child_token = root_token.append(&mut arena, 4usize);
    root_token.append(&mut arena, 5usize);
    let grandchild = third_child_token.append(&mut arena, 10usize);

    let mut nodes = root_token.children_mut(&mut arena);
    while let Some(x) = nodes.next() {
        x.data += 10;
    }

    let mut children = root_token.children(&arena);
    assert_eq!(children.next().unwrap().data, 12);
    assert_eq!(children.next().unwrap().data, 13);
    assert_eq!(children.next().unwrap().data, 14);
    assert_eq!(children.next().unwrap().data, 15);
    assert_eq!(arena.get(grandchild).unwrap().data, 10);
    assert!(children.next().is_none());
}

#[test]
fn subtree_mut_preorder() {
    let (mut arena, root_token) = Arena::with_data(1usize);
    root_token.append(&mut arena, 2usize);
    root_token.append(&mut arena, 3usize);
    let third_child = root_token.append(&mut arena, 4usize);
    root_token.append(&mut arena, 5usize);
    third_child.append(&mut arena, 10usize);
    third_child.append(&mut arena, 20usize);

    let mut nodes = root_token.subtree_mut(&mut arena, TraversalOrder::Pre);
    while let Some(x) = nodes.next() {
        x.data += 100;
    }

    let mut subtree = root_token.subtree(&arena, TraversalOrder::Pre);
    assert_eq!(subtree.next().unwrap().data, 101);
    assert_eq!(subtree.next().unwrap().data, 102);
    assert_eq!(subtree.next().unwrap().data, 103);
    assert_eq!(subtree.next().unwrap().data, 104);
    assert_eq!(subtree.next().unwrap().data, 110);
    assert_eq!(subtree.next().unwrap().data, 120);
    assert_eq!(subtree.next().unwrap().data, 105);
    assert!(subtree.next().is_none());
}
