//! The subtree forward iterator: a preorder depth-first walk of one node
//! and all its descendants, driven by an explicit stack of frames. Its
//! contract pins the walk down completely: the values pulled are exactly
//! the node's preorder sequence, in order.

use vstd::prelude::*;

use crate::node::{preorder, preorder_from, ContainerNode, DomNode, TextNode};

verus! {

/// The text nodes among a run of nodes, in order.
pub open spec fn texts_of(s: Seq<DomNode>) -> Seq<TextNode>
    decreases s.len(),
{
    if s.len() == 0 {
        Seq::empty()
    } else if s.first() is Text {
        seq![s.first()->Text_0] + texts_of(s.drop_first())
    } else {
        texts_of(s.drop_first())
    }
}

/// The container nodes among a run of nodes, in order.
pub open spec fn containers_of(s: Seq<DomNode>) -> Seq<ContainerNode>
    decreases s.len(),
{
    if s.len() == 0 {
        Seq::empty()
    } else if s.first() is Container {
        seq![s.first()->Container_0] + containers_of(s.drop_first())
    } else {
        containers_of(s.drop_first())
    }
}

/// A frame of the walk: a node and the index of the next of its children
/// still to visit.
struct NodeAndChildIndex<'a> {
    node: &'a DomNode,
    child_index: usize,
}

/// What a frame still owes: the preorder sequences of the children not
/// yet visited, concatenated.
spec fn frame_rest(f: NodeAndChildIndex<'_>) -> Seq<DomNode> {
    match *f.node {
        DomNode::Container(c) => preorder_from(c, f.child_index as int),
        _ => Seq::empty(),
    }
}

/// What a stack of frames still owes, innermost frame first.
spec fn frames_rest(s: Seq<NodeAndChildIndex<'_>>) -> Seq<DomNode>
    decreases s.len(),
{
    if s.len() == 0 {
        Seq::empty()
    } else {
        frame_rest(s.last()) + frames_rest(s.drop_last())
    }
}

/// A forward-only preorder iterator over one node and its descendants.
/// It has no whole-document knowledge: it can never walk outside the node
/// it was constructed from.
pub struct DomIterator<'a> {
    started: bool,
    ancestors: Vec<NodeAndChildIndex<'a>>,
}

impl<'a> DomIterator<'a> {
    /// The nodes still to be pulled, in the order they will come.
    pub closed spec fn remaining(self) -> Seq<DomNode> {
        if !self.started && self.ancestors@.len() > 0 {
            seq![*self.ancestors@[0].node] + frames_rest(self.ancestors@)
        } else {
            frames_rest(self.ancestors@)
        }
    }

    /// The iterator's internal consistency: before the first pull there is
    /// exactly the starting frame; every frame above the first holds a
    /// container (only containers are descended into).
    pub closed spec fn inv(self) -> bool {
        &&& !self.started ==> self.ancestors@.len() == 1 && self.ancestors@[0].child_index == 0
        &&& forall|j: int| 1 <= j < self.ancestors@.len() ==> (#[trigger] self.ancestors@[j]).node
            is Container
    }

    /// Begin a preorder walk of `dom_node` and all its descendants.
    pub fn over(dom_node: &'a DomNode) -> (r: DomIterator<'a>)
        ensures
            r.inv(),
            r.remaining() == preorder(*dom_node),
    {
        let mut ancestors: Vec<NodeAndChildIndex<'a>> = Vec::new();
        ancestors.push(NodeAndChildIndex { node: dom_node, child_index: 0 });
        let r = DomIterator { started: false, ancestors };
        proof {
            reveal_with_fuel(frames_rest, 2);
            assert(r.ancestors@.drop_last() =~= Seq::<NodeAndChildIndex<'a>>::empty());
            assert(r.ancestors@.last() == r.ancestors@[0]);
            assert(r.remaining() =~= preorder(*dom_node));
        }
        r
    }

    /// Pull the next node of the subtree, in preorder: the first element
    /// of `remaining()`, or `None` once the walk is exhausted.
    pub fn next(&mut self) -> (r: Option<&'a DomNode>)
        requires
            old(self).inv(),
        ensures
            final(self).inv(),
            old(self).remaining().len() > 0 ==> (r matches Some(n) && *n == old(
                self,
            ).remaining().first() && final(self).remaining() == old(
                self,
            ).remaining().drop_first()),
            old(self).remaining().len() == 0 ==> r is None && final(self).remaining()
                == Seq::<DomNode>::empty(),
    {
        let ghost rem = old(self).remaining();
        if !self.started {
            self.started = true;
            let node = self.ancestors[0].node;
            proof {
                assert(rem.drop_first() =~= frames_rest(self.ancestors@));
            }
            return Some(node);
        }
        loop
            invariant
                self.started,
                rem == old(self).remaining(),
                frames_rest(self.ancestors@) == rem,
                forall|j: int|
                    1 <= j < self.ancestors@.len() ==> (#[trigger] self.ancestors@[j]).node
                        is Container,
            decreases self.ancestors@.len(),
        {
            let ghost stack = self.ancestors@;
            match self.ancestors.pop() {
                None => {
                    proof {
                        reveal_with_fuel(frames_rest, 2);
                        assert(stack.len() == 0);
                        assert(rem.len() == 0);
                        assert(rem =~= Seq::<DomNode>::empty());
                    }
                    return None;
                },
                Some(frame) => {
                    proof {
                        assert(stack.last() == frame);
                        assert(stack.drop_last() == self.ancestors@);
                    }
                    match frame.node {
                        DomNode::Container(c) => {
                            let idx = frame.child_index;
                            if idx < c.children.len() {
                                let myself = &c.children[idx];
                                let ghost below = self.ancestors@;
                                self.ancestors.push(
                                    NodeAndChildIndex { node: frame.node, child_index: idx + 1 },
                                );
                                let is_cont = match myself {
                                    DomNode::Container(_) => true,
                                    _ => false,
                                };
                                if is_cont {
                                    self.ancestors.push(
                                        NodeAndChildIndex { node: myself, child_index: 0 },
                                    );
                                }
                                proof {
                                    reveal_with_fuel(frames_rest, 2);
                                    let s1 = below.push(
                                        NodeAndChildIndex { node: frame.node, child_index: (idx + 1) as usize },
                                    );
                                    assert(s1.drop_last() == below);
                                    assert(frames_rest(s1) == preorder_from(*c, idx + 1)
                                        + frames_rest(below));
                                    if is_cont {
                                        assert(self.ancestors@.drop_last() == s1);
                                        let cc = (*myself)->Container_0;
                                        assert(frames_rest(self.ancestors@) == preorder_from(cc, 0)
                                            + (preorder_from(*c, idx + 1) + frames_rest(below)));
                                        assert(preorder(*myself) == seq![*myself] + preorder_from(
                                            cc,
                                            0,
                                        ));
                                    } else {
                                        assert(preorder(*myself) == seq![*myself]);
                                    }
                                    assert(rem == preorder_from(*c, idx as int) + frames_rest(
                                        below,
                                    ));
                                    assert(preorder_from(*c, idx as int) == preorder(
                                        c.children@[idx as int],
                                    ) + preorder_from(*c, idx + 1));
                                    assert(rem =~= seq![*myself] + frames_rest(self.ancestors@));
                                    assert(rem.first() == *myself);
                                    assert(rem.drop_first() =~= frames_rest(self.ancestors@));
                                }
                                return Some(myself);
                            } else {
                                proof {
                                    assert(frame_rest(frame) =~= Seq::<DomNode>::empty());
                                    assert(rem =~= frames_rest(self.ancestors@));
                                }
                            }
                        },
                        _ => {
                            proof {
                                reveal_with_fuel(frames_rest, 3);
                                assert(stack.len() == 1) by {
                                    if stack.len() > 1 {
                                        assert(stack[stack.len() - 1].node is Container);
                                    }
                                }
                                assert(stack.last() == stack[0]);
                                assert(frame_rest(frame) =~= Seq::<DomNode>::empty());
                                assert(stack.drop_last() =~= Seq::<NodeAndChildIndex<'a>>::empty());
                                assert(rem =~= Seq::<DomNode>::empty());
                            }
                            self.ancestors.push(frame);
                            return None;
                        },
                    }
                },
            }
        }
    }
}

/// A lazy view over a subtree walk that keeps only the text nodes; the
/// underlying walk is fully delegated to and its order preserved.
pub struct TextIterator<'a> {
    inner: DomIterator<'a>,
}

impl<'a> TextIterator<'a> {
    pub closed spec fn inv(self) -> bool {
        self.inner.inv()
    }

    /// The text nodes still to be pulled, in the order they will come.
    pub closed spec fn remaining(self) -> Seq<TextNode> {
        texts_of(self.inner.remaining())
    }

    /// Begin a text-only preorder walk of `dom_node` and its descendants.
    pub fn over(dom_node: &'a DomNode) -> (r: TextIterator<'a>)
        ensures
            r.inv(),
            r.remaining() == texts_of(preorder(*dom_node)),
    {
        TextIterator { inner: DomIterator::over(dom_node) }
    }

    /// Pull the next text node of the subtree, in preorder.
    pub fn next(&mut self) -> (r: Option<&'a TextNode>)
        requires
            old(self).inv(),
        ensures
            final(self).inv(),
            old(self).remaining().len() > 0 ==> (r matches Some(t) && *t == old(
                self,
            ).remaining().first() && final(self).remaining() == old(
                self,
            ).remaining().drop_first()),
            old(self).remaining().len() == 0 ==> r is None && final(self).remaining()
                == Seq::<TextNode>::empty(),
    {
        let ghost goal = old(self).remaining();
        loop
            invariant
                self.inner.inv(),
                goal == old(self).remaining(),
                texts_of(self.inner.remaining()) == goal,
            decreases self.inner.remaining().len(),
        {
            let ghost before = self.inner.remaining();
            match self.inner.next() {
                None => {
                    return None;
                },
                Some(node) => {
                    proof {
                        assert(*node == before.first());
                        assert(self.inner.remaining() == before.drop_first());
                    }
                    match node.as_text() {
                        Some(t) => {
                            proof {
                                assert(goal == seq![*t] + texts_of(before.drop_first()));
                                assert(goal.first() == *t);
                                assert(goal.drop_first() =~= texts_of(before.drop_first()));
                            }
                            return Some(t);
                        },
                        None => {
                        },
                    }
                },
            }
        }
    }
}

/// A lazy view over a subtree walk that keeps only the container nodes;
/// the underlying walk is fully delegated to and its order preserved.
pub struct ContainerIterator<'a> {
    inner: DomIterator<'a>,
}

impl<'a> ContainerIterator<'a> {
    pub closed spec fn inv(self) -> bool {
        self.inner.inv()
    }

    /// The containers still to be pulled, in the order they will come.
    pub closed spec fn remaining(self) -> Seq<ContainerNode> {
        containers_of(self.inner.remaining())
    }

    /// Begin a container-only preorder walk of `dom_node` and its
    /// descendants.
    pub fn over(dom_node: &'a DomNode) -> (r: ContainerIterator<'a>)
        ensures
            r.inv(),
            r.remaining() == containers_of(preorder(*dom_node)),
    {
        ContainerIterator { inner: DomIterator::over(dom_node) }
    }

    /// Pull the next container of the subtree, in preorder.
    pub fn next(&mut self) -> (r: Option<&'a ContainerNode>)
        requires
            old(self).inv(),
        ensures
            final(self).inv(),
            old(self).remaining().len() > 0 ==> (r matches Some(c) && *c == old(
                self,
            ).remaining().first() && final(self).remaining() == old(
                self,
            ).remaining().drop_first()),
            old(self).remaining().len() == 0 ==> r is None && final(self).remaining()
                == Seq::<ContainerNode>::empty(),
    {
        let ghost goal = old(self).remaining();
        loop
            invariant
                self.inner.inv(),
                goal == old(self).remaining(),
                containers_of(self.inner.remaining()) == goal,
            decreases self.inner.remaining().len(),
        {
            let ghost before = self.inner.remaining();
            match self.inner.next() {
                None => {
                    return None;
                },
                Some(node) => {
                    proof {
                        assert(*node == before.first());
                        assert(self.inner.remaining() == before.drop_first());
                    }
                    match node.as_container() {
                        Some(c) => {
                            proof {
                                assert(goal == seq![*c] + containers_of(before.drop_first()));
                                assert(goal.first() == *c);
                                assert(goal.drop_first() =~= containers_of(before.drop_first()));
                            }
                            return Some(c);
                        },
                        None => {
                        },
                    }
                },
            }
        }
    }
}

impl DomNode {
    /// An iterator over all nodes of the subtree starting from this node
    /// (including self), in depth-first order.
    pub fn iter_subtree(&self) -> (r: DomIterator<'_>)
        ensures
            r.inv(),
            r.remaining() == preorder(*self),
    {
        DomIterator::over(self)
    }

    /// An iterator over all text nodes of the subtree starting from this
    /// node (including self), in depth-first order.
    pub fn iter_text_in_subtree(&self) -> (r: TextIterator<'_>)
        ensures
            r.inv(),
            r.remaining() == texts_of(preorder(*self)),
    {
        TextIterator::over(self)
    }

    /// An iterator over all container nodes of this subtree, in
    /// depth-first order.
    pub fn iter_containers(&self) -> (r: ContainerIterator<'_>)
        ensures
            r.inv(),
            r.remaining() == containers_of(preorder(*self)),
    {
        ContainerIterator::over(self)
    }
}

} // verus!
