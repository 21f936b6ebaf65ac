//! Depth-first traversal over a rich-text document tree.
//!
//! The tree is made of containers (lists, formatting spans), text runs,
//! line breaks and zero-width markers. Every node sits at an address — the
//! path of child indices from the document root — and this crate provides
//! preorder (parent before children, left to right) walks over it: a
//! forward-only walk of a subtree, a bidirectional whole-document walk
//! anchored at any node, filtered views, and single-step cursor moves.

mod handle;
mod dom;
mod iter;
mod laws;
mod node;
mod node_iter;

pub use dom::{root_children_wf, Dom};
pub use handle::{handle_lt, lemma_lt_asym, lemma_lt_extend, lemma_lt_first_diff, lemma_lt_inversion, lemma_lt_trans, DomHandle};
pub use laws::{is_last_position, later_count, lemma_later_count_decreases, lemma_preorder_complete, lemma_backward_from_root_ends, lemma_backward_moves, lemma_backward_step_direction, lemma_prev_target_earlier, lemma_prev_target_moves, lemma_forward_from_last_ends, lemma_forward_moves_forward, lemma_forward_step_is_successor, lemma_preorder_children_in_order, lemma_preorder_parent_first, lemma_preorder_sorted, lemma_subtree_containment};
pub use iter::{containers_of, texts_of, ContainerIterator, DomIterator, TextIterator};
pub use node_iter::{bwd_step, fwd_step, handles_set, is_strict_prefix, next_sibling_target, prev_target, sibling_scan, sibling_scan_back, DomNodeIterator, TextNodeIterator};
pub use node::{ContainerNode, DomNode, LineBreakNode, TextNode, ZwspNode};
pub use node::{node_at, preorder, preorder_from, valid_path, wf_node};
pub use node::{lemma_node_at_child, lemma_node_at_props, lemma_parent_of_valid, lemma_valid_prefix};
