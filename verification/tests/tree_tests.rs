use atree::iter::TraversalOrder;
use atree::{Token, Tree};

fn preorder(tree: &Tree<&'static str>, root: Token) -> Vec<&'static str> {
    let mut out = Vec::new();
    let mut nodes = root.subtree(tree.arena(), TraversalOrder::Pre);
    while let Some(node) = nodes.next() {
        out.push(node.data);
    }
    out
}

#[test]
fn an_empty_tree_gets_its_root() {
    let mut tree: Tree<usize> = Tree::default();
    assert!(tree.is_empty());
    assert_eq!(tree.node_count(), 0);
    let root = tree.new_node(1usize);
    assert!(!tree.is_empty());
    assert_eq!(tree.node_count(), 1);
    assert_eq!(tree.get(root).unwrap().data, 1);
}

#[test]
fn tree_node_count() {
    let (mut tree, root_token) = Tree::with_data(1usize);
    assert_eq!(tree.node_count(), 1);
    assert_eq!(tree.capacity(), 1);
    assert_eq!(tree.get(root_token).unwrap().data, 1);

    let next_node_token = root_token.append(tree.arena_mut(), 2usize);
    assert_eq!(tree.node_count(), 2);
    next_node_token.append(tree.arena_mut(), 3usize);
    assert_eq!(tree.node_count(), 3);
    assert_eq!(tree.capacity(), 4);

    tree.get_mut(next_node_token).unwrap().data = 10;
    assert_eq!(tree.get(next_node_token).unwrap().data, 10);
    assert_eq!(tree[next_node_token].data, 10);
    assert_eq!(tree[root_token].data, 1);
}

#[test]
fn tree_overwrite() {
    let (mut tree, root_token) = Tree::with_data(1usize);
    let next_node = root_token.append(tree.arena_mut(), 2usize);
    next_node.append(tree.arena_mut(), 3usize);
    next_node.append(tree.arena_mut(), 4usize);

    tree.overwrite(next_node, 10);
    assert_eq!(tree.get(next_node).unwrap().data, 10);
    assert_eq!(tree.node_count(), 2);
}

#[test]
fn tree_remove_takes_the_descendants_along() {
    let (mut tree, root_token) = Tree::with_data(1usize);
    let next_node = root_token.append(tree.arena_mut(), 2usize);
    next_node.append(tree.arena_mut(), 3usize);
    next_node.append(tree.arena_mut(), 4usize);

    tree.remove(next_node);
    let mut iter = root_token.subtree_tokens(tree.arena(), TraversalOrder::Pre);
    assert_eq!(iter.next(), Some(root_token));
    assert!(iter.next().is_none());
    assert_eq!(tree.node_count(), 1);
}

#[test]
fn tree_split_at() {
    let (mut atree, root_token) = Tree::with_data("a0");
    let node1 = root_token.append(atree.arena_mut(), "a1");
    let node2 = root_token.append(atree.arena_mut(), "b1");
    node1.append(atree.arena_mut(), "a2");
    node2.append(atree.arena_mut(), "b2");

    let btree = atree.split_at(node2);

    assert_eq!(preorder(&atree, root_token), ["a0", "a1", "a2"]);
    // the root of the new tree has the first token, as the root of the old
    assert_eq!(preorder(&btree, root_token), ["b1", "b2"]);
}

#[test]
fn tree_append_subtree() {
    let (mut tree1, root_token) = Tree::with_data("John");
    let node1 = root_token.append(tree1.arena_mut(), "Juan");
    let node2 = root_token.append(tree1.arena_mut(), "Giovanni");
    node1.append(tree1.arena_mut(), "Ivan");
    node2.append(tree1.arena_mut(), "Johann");

    let tree2 = tree1.clone();

    // append "node1" from tree2 under "node2" in tree1
    tree1.append_subtree(node2, &tree2, node1);
    assert_eq!(preorder(&tree1, node2), ["Giovanni", "Johann", "Juan", "Ivan"]);
}
