//! The document: a single root container owning all nodes, with address
//! lookup and the facts about lookup that the iterators rely on.

use vstd::prelude::*;

use crate::handle::DomHandle;
use crate::iter::{containers_of, texts_of, ContainerIterator, DomIterator, TextIterator};
use crate::node::{
    lemma_node_at_props, node_at, preorder, valid_path, wf_node, ContainerNode, DomNode,
};
use crate::node_iter::{bwd_step, fwd_step, DomNodeIterator, TextNodeIterator};

verus! {

/// Whether a run of top-level nodes is correctly addressed under the root:
/// the `i`-th one is stored at address `[i]`, and is well formed itself.
pub open spec fn root_children_wf(children: Seq<DomNode>) -> bool {
    forall|i: int|
        0 <= i < children.len() ==> (#[trigger] children[i]).handle_spec()
            == Seq::<usize>::empty().push(i as usize) && wf_node(children[i])
}

/// A rich-text document: a root container (named by the empty string, at
/// the empty address) owning, transitively, every node.
pub struct Dom {
    pub document: DomNode,
}

impl Dom {
    /// The root node of the document.
    pub open spec fn doc(self) -> DomNode {
        self.document
    }

    /// A document is well formed when its root is a container at the empty
    /// address and every node is stored at the address of its position.
    pub open spec fn wf(self) -> bool {
        &&& self.document is Container
        &&& self.document.handle_spec() == Seq::<usize>::empty()
        &&& wf_node(self.document)
    }

    /// Build a document owning `children` as its top-level nodes. Returns
    /// `None` exactly when some node's stored address does not match its
    /// position.
    pub fn new(children: Vec<DomNode>) -> (r: Option<Dom>)
        ensures
            match r {
                Some(d) => {
                    &&& root_children_wf(children@)
                    &&& d.wf()
                    &&& d.doc() matches DomNode::Container(c) && c.children@ == children@
                        && c.name@ == Seq::<char>::empty()
                },
                None => !root_children_wf(children@),
            },
    {
        let root = ContainerNode::new(DomHandle::root(), String::new(), children);
        let document = DomNode::Container(root);
        if check_wf(&document) {
            proof {
                assert(root_children_wf(document->Container_0.children@)) by {
                    assert(wf_node(document));
                    assert(forall|i: int|
                        0 <= i < document->Container_0.children@.len() ==> (
                        #[trigger] document->Container_0.children@[i]).handle_spec()
                            == Seq::<usize>::empty().push(i as usize) && wf_node(
                            document->Container_0.children@[i],
                        ));
                }
            }
            Some(Dom { document })
        } else {
            proof {
                assert(!root_children_wf(document->Container_0.children@)) by {
                    if root_children_wf(document->Container_0.children@) {
                        assert(wf_node(document));
                    }
                }
            }
            None
        }
    }

    /// The root node.
    pub fn document_node(&self) -> (r: &DomNode)
        ensures
            *r == self.doc(),
    {
        &self.document
    }

    /// The root container.
    pub fn document(&self) -> (r: &ContainerNode)
        requires
            self.wf(),
        ensures
            DomNode::Container(*r) == self.doc(),
    {
        match &self.document {
            DomNode::Container(c) => c,
            _ => unreached(),
        }
    }

    /// The top-level nodes of the document.
    pub fn children(&self) -> (r: &Vec<DomNode>)
        requires
            self.wf(),
        ensures
            r@ == self.doc()->Container_0.children@,
    {
        self.document().children()
    }

    /// An iterator over all nodes of this document, in depth-first order.
    pub fn iter(&self) -> (r: DomIterator<'_>)
        ensures
            r.inv(),
            r.remaining() == preorder(self.doc()),
    {
        DomIterator::over(self.document_node())
    }

    /// An iterator over all text nodes of this document, in depth-first
    /// order.
    pub fn iter_text(&self) -> (r: TextIterator<'_>)
        ensures
            r.inv(),
            r.remaining() == texts_of(preorder(self.doc())),
    {
        TextIterator::over(self.document_node())
    }

    /// An iterator over all container nodes of this document, in
    /// depth-first order.
    pub fn iter_containers(&self) -> (r: ContainerIterator<'_>)
        ensures
            r.inv(),
            r.remaining() == containers_of(preorder(self.doc())),
    {
        ContainerIterator::over(self.document_node())
    }

    /// An iterator over all nodes of the document from the passed node,
    /// depth-first order (including self), drivable from either end.
    pub fn iter_from<'b>(&'b self, node: &'b DomNode) -> (r: DomNodeIterator<'b>)
        requires
            self.wf(),
            valid_path(self.doc(), node.handle_spec()),
            *node == node_at(self.doc(), node.handle_spec()),
        ensures
            r.inv(),
            r.doc() == self.doc(),
            !r.started_spec(),
            r.cur() == Some(node.handle_spec()),
            r.visited_set() == Set::<Seq<usize>>::empty(),
    {
        DomNodeIterator::over(self, node)
    }

    /// An iterator over all nodes of the document from the node at the
    /// passed address, depth-first order (including it), drivable from
    /// either end.
    pub fn iter_from_handle<'b>(&'b self, handle: &DomHandle) -> (r: DomNodeIterator<'b>)
        requires
            self.wf(),
            valid_path(self.doc(), handle@),
        ensures
            r.inv(),
            r.doc() == self.doc(),
            !r.started_spec(),
            r.cur() == Some(handle@),
            r.visited_set() == Set::<Seq<usize>>::empty(),
    {
        let node = self.lookup_node(handle);
        proof {
            lemma_node_at_props(self.doc(), handle@);
            assert(self.doc().handle_spec() + handle@ =~= handle@);
        }
        DomNodeIterator::over(self, node)
    }

    /// An iterator over the text nodes of the document from the passed
    /// node on, in depth-first order (including self).
    pub fn iter_text_from<'b>(&'b self, node: &'b DomNode) -> (r: TextNodeIterator<'b>)
        requires
            self.wf(),
            valid_path(self.doc(), node.handle_spec()),
            *node == node_at(self.doc(), node.handle_spec()),
        ensures
            r.inv(),
            r.doc() == self.doc(),
            !r.started_spec(),
            r.cur() == Some(node.handle_spec()),
    {
        TextNodeIterator::over(self, node)
    }

    /// The node emitted just before the one at `handle` by a backward
    /// walk anchored there: one `bwd_step` from a fresh walk. `None` at
    /// the document boundary.
    pub fn prev_node(&self, handle: &DomHandle) -> (r: Option<&DomNode>)
        requires
            self.wf(),
            valid_path(self.doc(), handle@),
        ensures
            ({
                let t = bwd_step(self.doc(), handle@, Set::<Seq<usize>>::empty().insert(handle@));
                match r {
                    Some(n) => t == Some(n.handle_spec()) && valid_path(self.doc(), n.handle_spec())
                        && *n == node_at(self.doc(), n.handle_spec()),
                    None => t is None,
                }
            }),
    {
        let mut iter = self.iter_from_handle(handle);
        let _ = iter.next_back();
        iter.next_back()
    }

    /// The address of the node `prev_node` would return. `None` at the
    /// document boundary.
    pub fn prev_handle(&self, handle: &DomHandle) -> (r: Option<DomHandle>)
        requires
            self.wf(),
            valid_path(self.doc(), handle@),
        ensures
            ({
                let t = bwd_step(self.doc(), handle@, Set::<Seq<usize>>::empty().insert(handle@));
                match r {
                    Some(hh) => t == Some(hh@),
                    None => t is None,
                }
            }),
    {
        let mut iter = self.iter_from_handle(handle);
        let _ = iter.next_back();
        match iter.next_back() {
            Some(prev) => Some(prev.handle()),
            None => None,
        }
    }

    /// The node emitted just after the one at `handle` by a forward walk
    /// anchored there: one `fwd_step` from a fresh walk — the first
    /// child, or the next sibling of the node or of its nearest ancestor
    /// that has one. `None` at the document boundary.
    pub fn next_node(&self, handle: &DomHandle) -> (r: Option<&DomNode>)
        requires
            self.wf(),
            valid_path(self.doc(), handle@),
        ensures
            ({
                let t = fwd_step(self.doc(), handle@, Set::<Seq<usize>>::empty().insert(handle@));
                match r {
                    Some(n) => t == Some(n.handle_spec()) && valid_path(self.doc(), n.handle_spec())
                        && *n == node_at(self.doc(), n.handle_spec()),
                    None => t is None,
                }
            }),
    {
        let mut iter = self.iter_from_handle(handle);
        let _ = iter.next();
        iter.next()
    }

    /// The address of the node `next_node` would return. `None` at the
    /// document boundary.
    pub fn next_handle(&self, handle: &DomHandle) -> (r: Option<DomHandle>)
        requires
            self.wf(),
            valid_path(self.doc(), handle@),
        ensures
            ({
                let t = fwd_step(self.doc(), handle@, Set::<Seq<usize>>::empty().insert(handle@));
                match r {
                    Some(hh) => t == Some(hh@),
                    None => t is None,
                }
            }),
    {
        let mut iter = self.iter_from_handle(handle);
        let _ = iter.next();
        match iter.next() {
            Some(next) => Some(next.handle()),
            None => None,
        }
    }

    /// Resolve an address to the node occupying that position. Addresses
    /// that do not denote a node are a caller contract violation.
    pub fn lookup_node(&self, handle: &DomHandle) -> (r: &DomNode)
        requires
            valid_path(self.doc(), handle@),
        ensures
            *r == node_at(self.doc(), handle@),
    {
        lookup_in(&self.document, handle)
    }
}

/// Resolve `handle` relative to `n` by walking down the child indices.
pub(crate) fn lookup_in<'a>(n: &'a DomNode, handle: &DomHandle) -> (r: &'a DomNode)
    requires
        valid_path(*n, handle@),
    ensures
        *r == node_at(*n, handle@),
{
    let path = handle.raw_path();
    let ghost full = handle@;
    let mut cur: &'a DomNode = n;
    let mut i: usize = 0;
    proof {
        assert(full.skip(0) =~= full);
    }
    while i < path.len()
        invariant
            path@ == full,
            i <= full.len(),
            valid_path(*cur, full.skip(i as int)),
            node_at(*cur, full.skip(i as int)) == node_at(*n, full),
        decreases full.len() - i,
    {
        proof {
            assert(full.skip(i as int).first() == full[i as int]);
            assert(full.skip(i as int).drop_first() =~= full.skip(i + 1));
        }
        match cur {
            DomNode::Container(c) => {
                cur = &c.children[path[i]];
            },
            _ => {
                proof {
                    assert(false);
                }
            },
        }
        i += 1;
    }
    proof {
        assert(full.skip(full.len() as int) =~= Seq::<usize>::empty());
    }
    cur
}

/// Check well-formedness of the stored addresses throughout a subtree.
#[verifier::loop_isolation(false)]
pub(crate) fn check_wf(n: &DomNode) -> (r: bool)
    ensures
        r == wf_node(*n),
    decreases *n,
{
    match n {
        DomNode::Container(c) => {
            let my_handle = c.handle();
            let mut i: usize = 0;
            let mut ok = true;
            while i < c.children.len()
                invariant
                    ok == forall|j: int|
                        0 <= j < i ==> (#[trigger] c.children@[j]).handle_spec()
                            == c.handle@.push(j as usize) && wf_node(c.children@[j]),
                    i <= c.children@.len(),
                    my_handle@ == c.handle@,
                decreases c.children@.len() - i,
        {
                let child = &c.children[i];
                let expected = my_handle.child_handle(i);
                let good = child.handle().same_as(&expected) && check_wf(child);
                proof {
                    if !good {
                        assert(!(c.children@[i as int].handle_spec() == c.handle@.push(
                            i as usize,
                        ) && wf_node(c.children@[i as int])));
                    }
                }
                ok = ok && good;
                i += 1;
            }
            proof {
                if ok {
                    assert(wf_node(*n));
                } else {
                    assert(!wf_node(*n));
                }
            }
            ok
        },
        _ => true,
    }
}

} // verus!
