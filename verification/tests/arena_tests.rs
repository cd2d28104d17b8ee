use atree::iter::Subtree;
use atree::iter::TraversalOrder;
use atree::{Arena, Error, Token};

fn payloads<'a>(mut nodes: Subtree<'a, &'static str>) -> Vec<&'static str> {
    let mut out = Vec::new();
    while let Some(node) = nodes.next() {
        out.push(node.data);
    }
    out
}

fn preorder(arena: &Arena<&'static str>, root: Token) -> Vec<&'static str> {
    payloads(root.subtree(arena, TraversalOrder::Pre))
}

#[test]
fn fresh_tree_has_one_node() {
    let (mut arena, root) = Arena::with_data(1usize);
    assert_eq!(arena.node_count(), 1);
    assert!(!arena.is_empty());
    assert_eq!(arena.capacity(), 1);
    assert_eq!(arena.get(root).unwrap().data, 1);
    assert!(root.is_leaf(&arena));

    let child = root.append(&mut arena, 2usize);
    assert_eq!(arena.node_count(), 2);
    assert!(!root.is_leaf(&arena));
    arena.uproot(child);
    assert_eq!(arena.node_count(), 1);
    assert!(root.is_leaf(&arena));
    assert!(arena.get(child).is_none());
}

#[test]
fn default_arena_is_empty() {
    let mut arena: Arena<usize> = Arena::default();
    assert!(arena.is_empty());
    assert_eq!(arena.node_count(), 0);
    let root = arena.new_node(1usize);
    assert!(!arena.is_empty());
    assert_eq!(root, Token::default());
    assert_eq!(arena.get(root).unwrap().token(), root);
}

#[test]
fn node_count_follows_appends() {
    let (mut arena, root_token) = Arena::with_data(1usize);
    assert_eq!(arena.node_count(), 1);
    let next_node_token = root_token.append(&mut arena, 2usize);
    assert_eq!(arena.node_count(), 2);
    next_node_token.append(&mut arena, 3usize);
    assert_eq!(arena.node_count(), 3);
}

#[test]
fn get_mut_changes_the_payload() {
    let (mut arena, root_token) = Arena::with_data("Indo-European");
    let lang = root_token.append(&mut arena, "English");
    arena.get_mut(lang).unwrap().data = "Icelandic";
    assert_eq!(arena.get(lang).unwrap().data, "Icelandic");
    assert_eq!(arena.get(lang).unwrap().token(), lang);
    assert!(arena.get(lang).unwrap().is_leaf());
    assert!(!arena.get(root_token).unwrap().is_leaf());
}

#[test]
fn capacity_doubles_when_the_pool_is_full() {
    let (mut arena, root) = Arena::with_data(0usize);
    assert_eq!(arena.capacity(), 1);
    root.append(&mut arena, 1);
    assert_eq!(arena.capacity(), 2);
    root.append(&mut arena, 2);
    assert_eq!(arena.capacity(), 4);
    root.append(&mut arena, 3);
    assert_eq!(arena.capacity(), 4);
    root.append(&mut arena, 4);
    assert_eq!(arena.capacity(), 8);
}

#[test]
fn free_slots_are_reused() {
    let (mut arena, root) = Arena::with_data(0usize);
    let mut tokens = Vec::new();
    for i in 1..=10usize {
        tokens.push(root.append(&mut arena, i));
    }
    let capacity = arena.capacity();
    assert_eq!(arena.node_count(), 11);

    arena.uproot(tokens[2]);
    arena.uproot(tokens[7]);
    arena.uproot(tokens[4]);
    assert_eq!(arena.node_count(), 8);
    assert_eq!(arena.capacity(), capacity);

    // the slot that was freed last is handed out first
    assert_eq!(root.append(&mut arena, 11), tokens[4]);
    assert_eq!(root.append(&mut arena, 12), tokens[7]);
    assert_eq!(root.append(&mut arena, 13), tokens[2]);
    assert_eq!(arena.node_count(), 11);
    assert_eq!(arena.capacity(), capacity);
}

#[test]
fn append_puts_the_node_last() {
    let (mut arena, root_token) = Arena::with_data("Indo-European");
    let next_node_token = root_token.append(&mut arena, "Germanic");
    next_node_token.append(&mut arena, "Romance");
    assert_eq!(preorder(&arena, root_token), ["Indo-European", "Germanic", "Romance"]);
}

#[test]
fn insert_before_puts_the_node_in_front() {
    let (mut arena, root_token) = Arena::with_data("Indo-European");
    let child2 = root_token.append(&mut arena, "Germanic");
    let child4 = root_token.append(&mut arena, "Slavic");
    child2.append(&mut arena, "English");
    // insert in between children 2 and 4
    child4.insert_before(&mut arena, "Romance");
    // insert before child 2
    child2.insert_before(&mut arena, "Celtic");
    assert_eq!(
        preorder(&arena, root_token),
        ["Indo-European", "Celtic", "Germanic", "English", "Romance", "Slavic"]
    );
}

#[test]
fn insert_after_puts_the_node_behind() {
    let (mut arena, root_token) = Arena::with_data("Indo-European");
    let child1 = root_token.append(&mut arena, "Romance");
    let child3 = root_token.append(&mut arena, "Germanic");
    child1.append(&mut arena, "French");
    // insert between children 1 and 3
    child1.insert_after(&mut arena, "Celtic");
    // insert after child 3
    child3.insert_after(&mut arena, "Slavic");
    assert_eq!(
        preorder(&arena, root_token),
        ["Indo-European", "Romance", "French", "Celtic", "Germanic", "Slavic"]
    );
}

#[test]
fn insert_node_after_attaches_a_tree() {
    let (mut arena, root) = Arena::with_data("Indo-European");
    let germanic = root.append(&mut arena, "Germanic");
    germanic.append(&mut arena, "German");
    germanic.append(&mut arena, "English");

    let romance = arena.new_node("Romance");
    romance.append(&mut arena, "French");
    romance.append(&mut arena, "Spanish");

    assert_eq!(germanic.insert_node_after(&mut arena, romance), Ok(()));
    assert_eq!(
        preorder(&arena, root),
        ["Indo-European", "Germanic", "German", "English", "Romance", "French", "Spanish"]
    );
}

#[test]
fn insert_node_before_attaches_a_tree() {
    let (mut arena, root) = Arena::with_data("Indo-European");
    let germanic = root.append(&mut arena, "Germanic");
    germanic.append(&mut arena, "German");
    germanic.append(&mut arena, "English");

    let romance = arena.new_node("Romance");
    romance.append(&mut arena, "French");
    romance.append(&mut arena, "Spanish");

    assert_eq!(germanic.insert_node_before(&mut arena, romance), Ok(()));
    assert_eq!(
        preorder(&arena, root),
        ["Indo-European", "Romance", "French", "Spanish", "Germanic", "German", "English"]
    );
}

#[test]
fn append_node_attaches_trees() {
    let (mut arena, root) = Arena::with_data("Indo-European");

    let germanic = arena.new_node("Germanic");
    let west = germanic.append(&mut arena, "West");
    west.append(&mut arena, "Scots");
    west.append(&mut arena, "English");

    let romance = arena.new_node("Romance");
    romance.append(&mut arena, "French");
    romance.append(&mut arena, "Italian");

    let count = arena.node_count();
    let capacity = arena.capacity();
    root.append_node(&mut arena, romance).unwrap();
    root.append_node(&mut arena, germanic).unwrap();
    assert_eq!(arena.node_count(), count);
    assert_eq!(arena.capacity(), capacity);

    assert_eq!(
        preorder(&arena, root),
        [
            "Indo-European",
            "Romance",
            "French",
            "Italian",
            "Germanic",
            "West",
            "Scots",
            "English"
        ]
    );
}

#[test]
fn attaching_a_node_that_is_not_free_fails() {
    let (mut arena, root) = Arena::with_data("Indo-European");
    let germanic = root.append(&mut arena, "Germanic");
    let west = germanic.append(&mut arena, "West");
    let north = germanic.append(&mut arena, "North");
    let slavic = root.append(&mut arena, "Slavic");
    let before = preorder(&arena, root);
    let count = arena.node_count();

    assert_eq!(slavic.append_node(&mut arena, west), Err(Error::NotAFreeNode));
    assert_eq!(slavic.replace_node(&mut arena, north), Err(Error::NotAFreeNode));
    assert_eq!(slavic.insert_node_before(&mut arena, west), Err(Error::NotAFreeNode));
    assert_eq!(slavic.insert_node_after(&mut arena, germanic), Err(Error::NotAFreeNode));

    assert_eq!(preorder(&arena, root), before);
    assert_eq!(arena.node_count(), count);
    let mut children = slavic.children_tokens(&arena);
    assert!(children.next().is_none());
}

#[test]
fn detach_makes_a_tree_of_its_own() {
    let (mut arena, root) = Arena::with_data("Indo-European");
    let germanic = root.append(&mut arena, "Germanic");
    let west = germanic.append(&mut arena, "West");
    west.append(&mut arena, "Scots");
    west.append(&mut arena, "English");

    west.detach(&mut arena);

    assert_eq!(preorder(&arena, root), ["Indo-European", "Germanic"]);
    assert_eq!(preorder(&arena, west), ["West", "Scots", "English"]);
    assert_eq!(arena.node_count(), 5);
}

#[test]
fn detach_and_append_node_keep_the_shape() {
    let (mut arena, root) = Arena::with_data("root");
    let a = root.append(&mut arena, "a");
    let b = root.append(&mut arena, "b");
    let c = root.append(&mut arena, "c");
    let d = b.append(&mut arena, "d");
    b.append(&mut arena, "e");
    d.append(&mut arena, "f");
    let shape = preorder(&arena, b);

    b.detach(&mut arena);
    assert_eq!(preorder(&arena, root), ["root", "a", "c"]);
    assert_eq!(preorder(&arena, b), shape);

    a.append_node(&mut arena, b).unwrap();
    assert_eq!(preorder(&arena, b), shape);
    assert_eq!(preorder(&arena, root), ["root", "a", "b", "d", "f", "e", "c"]);
    let mut following = a.following_siblings_tokens(&arena);
    assert_eq!(following.next(), Some(c));
    assert!(following.next().is_none());
}

#[test]
fn overwrite_removes_the_descendants() {
    let (mut arena, root_token) = Arena::with_data(1usize);
    let next_node = root_token.append(&mut arena, 2usize);
    next_node.append(&mut arena, 3usize);
    next_node.append(&mut arena, 4usize);

    arena.overwrite(next_node, 10);
    assert_eq!(arena.get(next_node).unwrap().data, 10);
    assert_eq!(arena.node_count(), 2);
    assert!(next_node.is_leaf(&arena));
    let mut children = root_token.children_tokens(&arena);
    assert_eq!(children.next(), Some(next_node));
    assert!(children.next().is_none());
}

#[test]
fn uproot_removes_the_subtree() {
    let (mut arena, root_token) = Arena::with_data(1usize);
    let next_node = root_token.append(&mut arena, 2usize);
    next_node.append(&mut arena, 3usize);
    next_node.append(&mut arena, 4usize);

    arena.uproot(next_node);
    let mut iter = root_token.subtree_tokens(&arena, TraversalOrder::Pre);
    assert_eq!(iter.next(), Some(root_token));
    assert!(iter.next().is_none());
    assert_eq!(arena.node_count(), 1);
}

#[test]
fn uproot_links_the_neighbours() {
    let (mut arena, root) = Arena::with_data("root");
    let a = root.append(&mut arena, "a");
    let b = root.append(&mut arena, "b");
    let c = root.append(&mut arena, "c");
    b.append(&mut arena, "d");

    arena.uproot(b);
    assert_eq!(preorder(&arena, root), ["root", "a", "c"]);
    let mut before = c.preceding_siblings_tokens(&arena);
    assert_eq!(before.next(), Some(a));
    assert!(before.next().is_none());

    arena.uproot(a);
    assert_eq!(preorder(&arena, root), ["root", "c"]);
    arena.uproot(c);
    assert_eq!(preorder(&arena, root), ["root"]);
    assert!(root.is_leaf(&arena));
}

#[test]
fn remove_descendants_of_a_leaf_does_nothing() {
    let (mut arena, root) = Arena::with_data(1usize);
    let child = root.append(&mut arena, 2usize);
    child.remove_descendants(&mut arena);
    assert_eq!(arena.node_count(), 2);
    root.remove_descendants(&mut arena);
    assert_eq!(arena.node_count(), 1);
    let mut children = root.children_tokens(&arena);
    assert!(children.next().is_none());
}

#[test]
fn copy_and_append_subtree_copies_into_another_arena() {
    let (mut arena1, root_token) = Arena::with_data("John");
    let node1 = root_token.append(&mut arena1, "Juan");
    let node2 = root_token.append(&mut arena1, "Giovanni");
    node1.append(&mut arena1, "Ivan");
    node2.append(&mut arena1, "Johann");

    let arena2 = arena1.clone();

    // append "node1" from arena2 under "node2" in arena1
    arena1.copy_and_append_subtree(node2, &arena2, node1);
    assert_eq!(preorder(&arena1, node2), ["Giovanni", "Johann", "Juan", "Ivan"]);
    assert_eq!(preorder(&arena2, root_token), ["John", "Juan", "Ivan", "Giovanni", "Johann"]);
    assert_eq!(arena1.node_count(), 7);
}

#[test]
fn copy_and_append_subtree_keeps_shape_and_order() {
    let (mut source, root) = Arena::with_data("root");
    let a = root.append(&mut source, "a");
    let b = root.append(&mut source, "b");
    let c = root.append(&mut source, "c");
    a.append(&mut source, "a1");
    let b1 = b.append(&mut source, "b1");
    b.append(&mut source, "b2");
    b1.append(&mut source, "b11");
    b1.append(&mut source, "b12");
    c.append(&mut source, "c1");

    let (mut target, host) = Arena::with_data("host");
    let first = host.append(&mut target, "first");
    target.copy_and_append_subtree(host, &source, root);

    assert_eq!(
        preorder(&target, host),
        ["host", "first", "root", "a", "a1", "b", "b1", "b11", "b12", "b2", "c", "c1"]
    );
    assert_eq!(
        payloads(host.subtree(&target, TraversalOrder::Post)),
        ["first", "a1", "a", "b11", "b12", "b1", "b2", "b", "c1", "c", "root", "host"]
    );
    assert_eq!(
        payloads(host.subtree(&target, TraversalOrder::Level)),
        ["host", "first", "root", "a", "b", "c", "a1", "b1", "b2", "c1", "b11", "b12"]
    );
    assert_eq!(target.node_count(), 12);
    let mut following = first.following_siblings(&target);
    assert_eq!(following.next().unwrap().data, "root");
    assert!(following.next().is_none());

    // a subtree that has siblings is copied without them
    let (mut other, top) = Arena::with_data("top");
    other.copy_and_append_subtree(top, &source, b);
    assert_eq!(preorder(&other, top), ["top", "b", "b1", "b11", "b12", "b2"]);
}

#[test]
fn split_at_moves_the_subtree() {
    let (mut arena1, root1) = Arena::with_data("a0");
    let node1 = root1.append(&mut arena1, "a1");
    let node2 = root1.append(&mut arena1, "b1");
    node1.append(&mut arena1, "a2");
    node2.append(&mut arena1, "b2");

    let (arena2, root2) = arena1.split_at(node2);

    assert_eq!(preorder(&arena1, root1), ["a0", "a1", "a2"]);
    assert_eq!(preorder(&arena2, root2), ["b1", "b2"]);
    assert_eq!(arena1.node_count(), 3);
    assert_eq!(arena2.node_count(), 2);
    assert!(arena1.get(node2).is_none());
}

#[test]
fn split_at_keeps_the_order_of_the_subtree() {
    let (mut arena, root) = Arena::with_data("root");
    let a = root.append(&mut arena, "a");
    let x = root.append(&mut arena, "x");
    let c = root.append(&mut arena, "c");
    let x1 = x.append(&mut arena, "x1");
    let x2 = x.append(&mut arena, "x2");
    let x3 = x.append(&mut arena, "x3");
    let x11 = x1.append(&mut arena, "x11");
    let x21 = x2.append(&mut arena, "x21");
    let x22 = x2.append(&mut arena, "x22");
    let members = [x, x1, x2, x3, x11, x21, x22];
    let before = preorder(&arena, x);

    let (split, top) = arena.split_at(x);

    assert_eq!(preorder(&split, top), before);
    assert_eq!(before, ["x", "x1", "x11", "x2", "x21", "x22", "x3"]);
    assert_eq!(split.node_count(), 7);
    let mut rest = root.subtree_tokens(&arena, TraversalOrder::Pre);
    let mut visited = Vec::new();
    while let Some(token) = rest.next() {
        visited.push(token);
    }
    assert_eq!(visited, vec![root, a, c]);
    for member in members.iter() {
        assert!(arena.get(*member).is_none());
    }
    assert_eq!(arena.node_count(), 3);
}

#[test]
fn remove_keeps_the_children_in_place() {
    let (mut arena, root) = Arena::with_data("Indo-European");
    let germanic = root.append(&mut arena, "Germanic");
    let west = germanic.append(&mut arena, "West");
    let scots = west.append(&mut arena, "Scots");
    let english = west.append(&mut arena, "English");

    let west_children = arena.remove(west);

    assert_eq!(west_children, vec![scots, english]);
    assert_eq!(preorder(&arena, root), ["Indo-European", "Germanic", "Scots", "English"]);
    assert_eq!(arena.get(scots).unwrap().data, "Scots");
    assert_eq!(arena.get(english).unwrap().data, "English");
    assert!(arena.get(west).is_none());
    assert_eq!(arena.node_count(), 4);
    let mut up = scots.ancestors_tokens(&arena);
    assert_eq!(up.next(), Some(germanic));
    assert_eq!(up.next(), Some(root));
    assert!(up.next().is_none());
}

#[test]
fn remove_puts_the_children_between_the_siblings() {
    let (mut arena, root) = Arena::with_data("root");
    let a = root.append(&mut arena, "a");
    let b = root.append(&mut arena, "b");
    let c = root.append(&mut arena, "c");
    let b1 = b.append(&mut arena, "b1");
    let b2 = b.append(&mut arena, "b2");
    let b3 = b.append(&mut arena, "b3");
    b2.append(&mut arena, "b21");

    assert_eq!(arena.remove(b), vec![b1, b2, b3]);
    assert_eq!(preorder(&arena, root), ["root", "a", "b1", "b2", "b21", "b3", "c"]);
    let mut children = root.children_tokens(&arena);
    assert_eq!(children.next(), Some(a));
    assert_eq!(children.next(), Some(b1));
    assert_eq!(children.next(), Some(b2));
    assert_eq!(children.next(), Some(b3));
    assert_eq!(children.next(), Some(c));
    assert!(children.next().is_none());
    let mut before = c.preceding_siblings_tokens(&arena);
    assert_eq!(before.next(), Some(b3));
    assert_eq!(before.next(), Some(b2));
    assert_eq!(before.next(), Some(b1));
    assert_eq!(before.next(), Some(a));
    assert!(before.next().is_none());

    // a leaf leaves its siblings linked to each other
    assert_eq!(arena.remove(b2.children_tokens(&arena).next().unwrap()), vec![]);
    assert_eq!(arena.remove(a), vec![]);
    assert_eq!(preorder(&arena, root), ["root", "b1", "b2", "b3", "c"]);
    // the first and the last child
    assert_eq!(arena.remove(c), vec![]);
    assert_eq!(arena.remove(b1), vec![]);
    assert_eq!(preorder(&arena, root), ["root", "b2", "b3"]);
}

#[test]
fn remove_of_a_root_frees_its_children() {
    let (mut arena, root) = Arena::with_data("root");
    let a = root.append(&mut arena, "a");
    let b = root.append(&mut arena, "b");
    a.append(&mut arena, "a1");

    assert_eq!(arena.remove(root), vec![a, b]);
    assert_eq!(arena.node_count(), 3);
    assert_eq!(preorder(&arena, a), ["a", "a1"]);
    assert_eq!(preorder(&arena, b), ["b"]);
    assert!(a.ancestors_tokens(&arena).next().is_none());
    assert!(a.following_siblings_tokens(&arena).next().is_none());
    assert!(b.preceding_siblings_tokens(&arena).next().is_none());
    // each of them is a free root now
    assert_eq!(a.append_node(&mut arena, b), Ok(()));
    assert_eq!(preorder(&arena, a), ["a", "a1", "b"]);
}

#[test]
fn links_stay_consistent() {
    let (mut arena, root) = Arena::with_data(0usize);
    let a = root.append(&mut arena, 1);
    let b = root.append(&mut arena, 2);
    let c = b.insert_before(&mut arena, 3);
    let d = a.insert_after(&mut arena, 4);
    let e = c.append(&mut arena, 5);
    c.detach(&mut arena);
    b.append_node(&mut arena, c).unwrap();
    let free = arena.new_node(6);
    d.replace_node(&mut arena, free).unwrap();
    arena.uproot(d);
    arena.remove(c);

    // root -> {a, free, b}, b -> {e}
    let expected = [(root, vec![a, free, b]), (a, vec![]), (free, vec![]), (b, vec![e]), (e, vec![])];
    for (parent, children) in expected.iter() {
        let mut found = Vec::new();
        let mut tokens = parent.children_tokens(&arena);
        while let Some(child) = tokens.next() {
            found.push(child);
        }
        assert_eq!(&found, children);
        for (i, child) in children.iter().enumerate() {
            assert_eq!(child.ancestors_tokens(&arena).next(), Some(*parent));
            let before = child.preceding_siblings_tokens(&arena).next();
            let after = child.following_siblings_tokens(&arena).next();
            assert_eq!(before, if i > 0 { Some(children[i - 1]) } else { None });
            assert_eq!(after, children.get(i + 1).copied());
            assert_eq!(arena.get(*child).unwrap().token(), *child);
        }
    }
    assert!(root.ancestors_tokens(&arena).next().is_none());
    assert!(root.preceding_siblings_tokens(&arena).next().is_none());
    assert!(root.following_siblings_tokens(&arena).next().is_none());
    assert_eq!(arena.node_count(), 5);
}

#[test]
fn remove_descendants_takes_as_many_as_there_are() {
    let (mut arena, root) = Arena::with_data(0usize);
    let a = root.append(&mut arena, 1);
    let b = root.append(&mut arena, 2);
    let a1 = a.append(&mut arena, 3);
    let a2 = a.append(&mut arena, 4);
    a1.append(&mut arena, 5);
    a1.append(&mut arena, 6);
    b.append(&mut arena, 7);
    let count = arena.node_count();
    let capacity = arena.capacity();

    let mut below = Vec::new();
    let mut tokens = a.subtree_tokens(&arena, TraversalOrder::Pre);
    while let Some(token) = tokens.next() {
        below.push(token);
    }
    assert_eq!(below.len(), 5);

    a.remove_descendants(&mut arena);
    assert_eq!(arena.node_count(), count - 4);
    assert_eq!(arena.capacity(), capacity);
    assert!(a.children_tokens(&arena).next().is_none());
    assert!(a.is_leaf(&arena));
    for token in below.iter().skip(1) {
        assert!(arena.get(*token).is_none());
    }
    // the slots are free again; the last in post-order was freed last and
    // comes first
    assert_eq!(a.append(&mut arena, 8), a2);
    assert_eq!(a.append(&mut arena, 9), a1);
    assert_eq!(arena.capacity(), capacity);
}

#[test]
fn a_root_gets_no_siblings() {
    let (mut arena, root) = Arena::with_data("root");
    let child = root.append(&mut arena, "child");
    let count = arena.node_count();
    let capacity = arena.capacity();

    assert_eq!(root.checked_insert_before(&mut arena, "before"), None);
    assert_eq!(root.checked_insert_after(&mut arena, "after"), None);

    assert_eq!(arena.node_count(), count);
    assert_eq!(arena.capacity(), capacity);
    assert_eq!(preorder(&arena, root), ["root", "child"]);
    assert!(root.preceding_siblings_tokens(&arena).next().is_none());
    assert!(root.following_siblings_tokens(&arena).next().is_none());

    let before = child.checked_insert_before(&mut arena, "before").unwrap();
    let after = child.checked_insert_after(&mut arena, "after").unwrap();
    let mut children = root.children_tokens(&arena);
    assert_eq!(children.next(), Some(before));
    assert_eq!(children.next(), Some(child));
    assert_eq!(children.next(), Some(after));
    assert!(children.next().is_none());
}

#[test]
fn a_node_is_in_the_subtrees_of_its_ancestors() {
    let (mut arena, root) = Arena::with_data(0usize);
    let a = root.append(&mut arena, 1);
    let b = root.append(&mut arena, 2);
    let a1 = a.append(&mut arena, 3);
    assert!(a1.is_in_subtree_of(&arena, a1));
    assert!(a1.is_in_subtree_of(&arena, a));
    assert!(a1.is_in_subtree_of(&arena, root));
    assert!(!a1.is_in_subtree_of(&arena, b));
    assert!(!a.is_in_subtree_of(&arena, a1));
    assert!(!root.is_in_subtree_of(&arena, a));
}

#[test]
fn an_arena_is_indexed_by_tokens() {
    let (mut arena, root_token) = Arena::with_data("Indo-European");
    let branch3 = root_token.append(&mut arena, "Slavic");
    assert_eq!(arena[branch3].data, "Slavic");
    assert_eq!(arena[root_token].data, "Indo-European");
    let branch3_node = &arena[branch3];
    assert_eq!(branch3, branch3_node.token());
}

#[test]
fn quick_start() {
    let (mut arena, root_token) = Arena::with_data("Indo-European");

    let branch1 = root_token.append(&mut arena, "Romance");
    let branch2 = root_token.append(&mut arena, "Germanic");
    let lang1 = branch2.append(&mut arena, "English");
    let lang2 = branch2.append(&mut arena, "Swedish");
    assert_eq!(arena.node_count(), 5);

    assert_eq!(arena[branch1].data, "Romance");
    arena.get_mut(lang1).unwrap().data = "Icelandic";
    assert_eq!(arena.get(lang1).unwrap().data, "Icelandic");

    let mut children = branch2.children_tokens(&arena);
    assert_eq!(children.next(), Some(lang1));
    assert_eq!(children.next(), Some(lang2));
    assert_eq!(children.next(), None);
    let mut nodes = root_token.subtree(&arena, TraversalOrder::Pre);
    assert_eq!(nodes.next().unwrap().data, "Indo-European");

    arena.uproot(branch2);
    assert_eq!(arena.node_count(), 2);
}

#[test]
fn copies_get_their_tokens_in_preorder() {
    let (mut arena, root) = Arena::with_data("root");
    let a = root.append(&mut arena, "a");
    let x = root.append(&mut arena, "x");
    let x1 = x.append(&mut arena, "x1");
    x.append(&mut arena, "x2");
    x1.append(&mut arena, "x11");
    a.append(&mut arena, "a1");

    // the tokens that a new arena hands out, in order
    let (mut fresh, first) = Arena::with_data(0usize);
    let mut handed_out = vec![first];
    for i in 1..4usize {
        handed_out.push(first.append(&mut fresh, i));
    }

    let (split, top) = arena.split_at(x);
    let mut tokens = Vec::new();
    let mut walk = top.subtree_tokens(&split, TraversalOrder::Pre);
    while let Some(token) = walk.next() {
        tokens.push(token);
    }
    assert_eq!(tokens, handed_out);
    assert_eq!(preorder(&split, top), ["x", "x1", "x11", "x2"]);
}
