//! An arena based tree structure. Any number of ordered, multi-child trees
//! are stored in one growable pool of slots and addressed by small copyable
//! tokens, so that building, changing and taking down large trees needs no
//! allocation per node, no reference counting and no pointers back and
//! forth.
//!
//! The crate has two layers. [`Allocator`] is the pool: slots that hold an
//! element or a link of the free list. [`Arena`] stores [`Node`]s in it and
//! keeps the parent, sibling and child links of every node consistent under
//! insertion, detachment, replacement and deletion. The operations on the
//! tree are methods of [`Token`], the traversals are in [`iter`], and
//! [`Tree`] is an arena to itself.
//!
//! Every operation is verified against a contract that is stated over the
//! links of all nodes, taken as a mathematical map: [`forest`] says what it
//! means for the links to form trees, [`edit`], [`removal`] and [`copy`] say
//! what the operations do to them, [`order`] says in what order a subtree
//! is traversed, and [`laws`] holds what follows for the operations taken
//! together.
//!
//! # Quick Start
//!
//! ```
//! use atree::iter::TraversalOrder;
//! use atree::Arena;
//!
//! let (mut arena, root_token) = Arena::with_data("Indo-European");
//!
//! // add some more nodes to the tree
//! let branch1 = root_token.append(&mut arena, "Romance");
//! let branch2 = root_token.append(&mut arena, "Germanic");
//! let lang1 = branch2.append(&mut arena, "English");
//! let lang2 = branch2.append(&mut arena, "Swedish");
//! assert_eq!(arena.node_count(), 5);
//!
//! // nodes are reached through their tokens
//! assert_eq!(arena[branch1].data, "Romance");
//! arena.get_mut(lang1).unwrap().data = "Icelandic";
//! assert_eq!(arena.get(lang1).unwrap().data, "Icelandic");
//!
//! // iterators are stepped with `next`
//! let mut children = branch2.children_tokens(&arena);
//! assert_eq!(children.next(), Some(lang1));
//! assert_eq!(children.next(), Some(lang2));
//! assert_eq!(children.next(), None);
//! let mut nodes = root_token.subtree(&arena, TraversalOrder::Pre);
//! assert_eq!(nodes.next().unwrap().data, "Indo-European");
//!
//! // removing a node removes its descendants; the slots are used again
//! arena.uproot(branch2);
//! assert_eq!(arena.node_count(), 2);
//! ```
pub mod allocator;
pub mod arena;
pub mod copy;
pub mod edit;
pub mod error;
pub mod forest;
pub mod iter;
pub mod laws;
pub mod node;
pub mod order;
pub mod removal;
pub mod token;
pub mod tree;

pub use allocator::Allocator;
pub use arena::Arena;
pub use error::Error;
pub use node::Node;
pub use token::Token;
pub use tree::Tree;
