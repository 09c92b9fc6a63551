//! In-memory sequence and set containers backed by binary trees.
//!
//! The centrepiece is [`avl_tree_vec::AvlTreeVec`], a height-balanced tree
//! that stores a sequence by position: every subtree caches its size and
//! height, so indexed access, insertion, removal, splitting and merging all
//! run in logarithmic time.  Next to it stand simpler siblings built on the
//! same rotation idea: key-ordered AVL sets and a map, an unbalanced binary
//! search tree, and a singly linked list.

pub mod avl_set;
pub mod avl_tree_map;
pub mod avl_tree_set;
pub mod avl_tree_vec;
pub mod binary_search_tree;
pub mod box_list;
