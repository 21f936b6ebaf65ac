//! The document tree's nodes and their mathematical model: well-formedness
//! of stored addresses, address lookup, and the preorder sequence that the
//! iterators are specified against.

use vstd::prelude::*;

use crate::handle::DomHandle;

verus! {

/// A container node: holds a display name and an ordered run of children.
/// The order of `children` is the document order within this container.
pub struct ContainerNode {
    pub handle: DomHandle,
    pub name: String,
    pub children: Vec<DomNode>,
}

/// A text node: a contiguous run of document content. Has no children.
pub struct TextNode {
    pub handle: DomHandle,
    pub data: String,
}

/// A line break. Has no children.
pub struct LineBreakNode {
    pub handle: DomHandle,
}

/// A zero-width marker. Has no children.
pub struct ZwspNode {
    pub handle: DomHandle,
}

/// A node of the document tree: one of the four node kinds.
pub enum DomNode {
    Container(ContainerNode),
    Text(TextNode),
    LineBreak(LineBreakNode),
    Zwsp(ZwspNode),
}

impl DomNode {
    /// The address stored in this node.
    pub open spec fn handle_spec(self) -> Seq<usize> {
        match self {
            DomNode::Container(c) => c.handle@,
            DomNode::Text(t) => t.handle@,
            DomNode::LineBreak(b) => b.handle@,
            DomNode::Zwsp(z) => z.handle@,
        }
    }

    pub open spec fn is_container(self) -> bool {
        self is Container
    }

    pub open spec fn is_text(self) -> bool {
        self is Text
    }

    /// The node's stored address.
    pub fn handle(&self) -> (r: DomHandle)
        ensures
            r@ == self.handle_spec(),
    {
        match self {
            DomNode::Container(c) => c.handle.clone(),
            DomNode::Text(t) => t.handle.clone(),
            DomNode::LineBreak(b) => b.handle.clone(),
            DomNode::Zwsp(z) => z.handle.clone(),
        }
    }

    /// This node as a text node, if it is one.
    pub fn as_text(&self) -> (r: Option<&TextNode>)
        ensures
            match r {
                Some(t) => self is Text && *self == DomNode::Text(*t),
                None => !(self is Text),
            },
    {
        match self {
            DomNode::Text(t) => Some(t),
            _ => None,
        }
    }

    /// This node as a container, if it is one.
    pub fn as_container(&self) -> (r: Option<&ContainerNode>)
        ensures
            match r {
                Some(c) => self is Container && *self == DomNode::Container(*c),
                None => !(self is Container),
            },
    {
        match self {
            DomNode::Container(c) => Some(c),
            _ => None,
        }
    }
}

impl ContainerNode {
    /// Build a container that sits at `handle` and owns `children`.
    pub fn new(handle: DomHandle, name: String, children: Vec<DomNode>) -> (r: ContainerNode)
        ensures
            r.handle@ == handle@,
            r.name@ == name@,
            r.children@ == children@,
    {
        ContainerNode { handle, name, children }
    }

    pub fn name(&self) -> (r: &String)
        ensures
            r@ == self.name@,
    {
        &self.name
    }

    pub fn children(&self) -> (r: &Vec<DomNode>)
        ensures
            r@ == self.children@,
    {
        &self.children
    }

    pub fn handle(&self) -> (r: DomHandle)
        ensures
            r@ == self.handle@,
    {
        self.handle.clone()
    }
}

impl TextNode {
    /// Build a text node that sits at `handle` and holds `data`.
    pub fn new(handle: DomHandle, data: String) -> (r: TextNode)
        ensures
            r.handle@ == handle@,
            r.data@ == data@,
    {
        TextNode { handle, data }
    }

    pub fn data(&self) -> (r: &String)
        ensures
            r@ == self.data@,
    {
        &self.data
    }

    pub fn handle(&self) -> (r: DomHandle)
        ensures
            r@ == self.handle@,
    {
        self.handle.clone()
    }
}

impl LineBreakNode {
    /// Build a line break that sits at `handle`.
    pub fn new(handle: DomHandle) -> (r: LineBreakNode)
        ensures
            r.handle@ == handle@,
    {
        LineBreakNode { handle }
    }
}

impl ZwspNode {
    /// Build a zero-width marker that sits at `handle`.
    pub fn new(handle: DomHandle) -> (r: ZwspNode)
        ensures
            r.handle@ == handle@,
    {
        ZwspNode { handle }
    }
}

/// A node is well formed when every child of every container in it is
/// stored at the address of its parent extended by the child's index.
pub open spec fn wf_node(n: DomNode) -> bool
    decreases n,
{
    match n {
        DomNode::Container(c) => forall|i: int|
            0 <= i < c.children@.len() ==> (#[trigger] c.children@[i]).handle_spec()
                == c.handle@.push(i as usize) && wf_node(c.children@[i]),
        _ => true,
    }
}

/// The preorder (depth-first, parent before children, left to right)
/// sequence of a node and all its descendants.
pub open spec fn preorder(n: DomNode) -> Seq<DomNode>
    decreases n, 0int,
{
    match n {
        DomNode::Container(c) => seq![n] + preorder_from(c, 0),
        _ => seq![n],
    }
}

/// The concatenated preorder sequences of `c`'s children from index `i` on.
pub open spec fn preorder_from(c: ContainerNode, i: int) -> Seq<DomNode>
    decreases c, c.children@.len() - i, 1int,
{
    if 0 <= i < c.children@.len() {
        preorder(c.children@[i]) + preorder_from(c, i + 1)
    } else {
        Seq::empty()
    }
}

/// Whether `path` addresses a node inside `n` (relative to `n`).
pub open spec fn valid_path(n: DomNode, path: Seq<usize>) -> bool
    decreases path.len(),
{
    path.len() == 0 || (match n {
        DomNode::Container(c) => path.first() < c.children@.len() && valid_path(
            c.children@[path.first() as int],
            path.drop_first(),
        ),
        _ => false,
    })
}

/// The node addressed by `path` inside `n` (relative to `n`).
pub open spec fn node_at(n: DomNode, path: Seq<usize>) -> DomNode
    decreases path.len(),
{
    if path.len() == 0 {
        n
    } else {
        match n {
            DomNode::Container(c) => if path.first() < c.children@.len() {
                node_at(c.children@[path.first() as int], path.drop_first())
            } else {
                n
            },
            _ => n,
        }
    }
}

/// In a well-formed tree, the node at `path` is stored at the address that
/// extends the root's by `path`, and is well formed itself.
pub proof fn lemma_node_at_props(n: DomNode, path: Seq<usize>)
    requires
        wf_node(n),
        valid_path(n, path),
    ensures
        node_at(n, path).handle_spec() == n.handle_spec() + path,
        wf_node(node_at(n, path)),
    decreases path.len(),
{
    if path.len() == 0 {
        assert(n.handle_spec() + path =~= n.handle_spec());
    } else {
        let c = n->Container_0;
        let child = c.children@[path.first() as int];
        assert(child.handle_spec() == c.handle@.push(path.first()) && wf_node(child));
        lemma_node_at_props(child, path.drop_first());
        assert(n.handle_spec().push(path.first()) + path.drop_first() =~= n.handle_spec() + path);
    }
}

/// Walking one more step down from a container at `path` reaches its
/// `i`-th child.
pub proof fn lemma_node_at_child(n: DomNode, path: Seq<usize>, i: usize)
    requires
        valid_path(n, path),
        node_at(n, path) is Container,
        i < node_at(n, path)->Container_0.children@.len(),
    ensures
        valid_path(n, path.push(i)),
        node_at(n, path.push(i)) == node_at(n, path)->Container_0.children@[i as int],
    decreases path.len(),
{
    if path.len() == 0 {
        reveal_with_fuel(valid_path, 2);
        reveal_with_fuel(node_at, 2);
        assert(path.push(i).drop_first() =~= Seq::<usize>::empty());
        assert(path.push(i).first() == i);
    } else {
        let c = n->Container_0;
        lemma_node_at_child(c.children@[path.first() as int], path.drop_first(), i);
        assert(path.push(i).first() == path.first());
        assert(path.push(i).drop_first() =~= path.drop_first().push(i));
    }
}

/// Every proper prefix of a valid address reaches a container, and the
/// address's segment there is within that container's child count.
pub proof fn lemma_valid_prefix(n: DomNode, path: Seq<usize>, k: int)
    requires
        valid_path(n, path),
        0 <= k < path.len(),
    ensures
        valid_path(n, path.take(k)),
        node_at(n, path.take(k)) is Container,
        path[k] < node_at(n, path.take(k))->Container_0.children@.len(),
    decreases path.len(),
{
    if k == 0 {
        assert(path.take(0) =~= Seq::<usize>::empty());
        assert(path[0] == path.first());
    } else {
        let c = n->Container_0;
        lemma_valid_prefix(c.children@[path.first() as int], path.drop_first(), k - 1);
        assert(path.take(k).first() == path.first());
        assert(path.take(k).drop_first() =~= path.drop_first().take(k - 1));
        assert(path.drop_first()[k - 1] == path[k]);
    }
}

/// Every non-root valid address has a container parent one step up, and
/// the node there is that parent's child at the address's last segment.
pub proof fn lemma_parent_of_valid(n: DomNode, path: Seq<usize>)
    requires
        valid_path(n, path),
        path.len() > 0,
    ensures
        valid_path(n, path.drop_last()),
        node_at(n, path.drop_last()) is Container,
        path.last() < node_at(n, path.drop_last())->Container_0.children@.len(),
        node_at(n, path) == node_at(n, path.drop_last())->Container_0.children@[path.last() as int],
    decreases path.len(),
{
    if path.len() == 1 {
        reveal_with_fuel(valid_path, 2);
        reveal_with_fuel(node_at, 2);
        assert(path.drop_last() =~= Seq::<usize>::empty());
        assert(path.drop_first() =~= Seq::<usize>::empty());
        assert(path.last() == path.first());
    } else {
        let c = n->Container_0;
        lemma_parent_of_valid(c.children@[path.first() as int], path.drop_first());
        assert(path.drop_last().first() == path.first());
        assert(path.drop_last().drop_first() =~= path.drop_first().drop_last());
        assert(path.drop_first().last() == path.last());
    }
}

} // verus!
