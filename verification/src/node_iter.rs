//! The whole-document bidirectional iterator: a preorder walk anchored at
//! an arbitrary node, drivable forward or backward past the anchor's own
//! subtree, navigating by addresses alone and using a set of already
//! emitted addresses to tell, at a container, whether it is being entered
//! from above or returned to from below. An address emitted from either
//! end is never emitted again: descents, sibling steps and ascents all
//! pass over visited addresses.
//!
//! Each pull's effect is specified exactly, as a step of the transition
//! functions `fwd_step` and `bwd_step` over the iterator's model: the
//! current address, the started flag and the visited set.

use vstd::prelude::*;

use crate::dom::Dom;
use crate::handle::{handle_lt, DomHandle};
use crate::handle::{lemma_lt_asym, lemma_lt_trans};
use crate::laws::{
    later_count, lemma_backward_moves, lemma_backward_step_direction, lemma_forward_moves_forward,
    lemma_forward_step_is_successor, lemma_later_count_decreases,
};
use crate::node::{
    lemma_node_at_child, lemma_node_at_props, lemma_parent_of_valid, node_at, valid_path, DomNode,
    TextNode,
};

verus! {

/// The set of addresses a run of handles holds.
pub open spec fn handles_set(s: Seq<DomHandle>) -> Set<Seq<usize>> {
    Set::new(|x: Seq<usize>| exists|i: int| 0 <= i < s.len() && s[i]@ == x)
}

/// Whether `a` is a strict prefix of `b`: the address of a strict
/// ancestor.
pub open spec fn is_strict_prefix(a: Seq<usize>, b: Seq<usize>) -> bool {
    a.len() < b.len() && a == b.take(a.len() as int)
}

/// The first of a container's children at `p`, from index `i` on, whose
/// address was not yet visited: emitted addresses are never re-emitted,
/// so a sibling step skips them.
pub open spec fn sibling_scan(p: Seq<usize>, i: int, len: int, visited: Set<Seq<usize>>) -> Option<
    Seq<usize>,
>
    decreases len - i,
{
    if i < 0 || i >= len {
        None
    } else if !visited.contains(p.push(i as usize)) {
        Some(p.push(i as usize))
    } else {
        sibling_scan(p, i + 1, len, visited)
    }
}

/// The last of a container's children at `p`, from index `i` down, whose
/// address was not yet visited.
pub open spec fn sibling_scan_back(p: Seq<usize>, i: int, visited: Set<Seq<usize>>) -> Option<
    Seq<usize>,
>
    decreases i + 1,
{
    if i < 0 {
        None
    } else if !visited.contains(p.push(i as usize)) {
        Some(p.push(i as usize))
    } else {
        sibling_scan_back(p, i - 1, visited)
    }
}

/// The address emitted after `h` when walking forward past `h`'s subtree:
/// the next not yet visited sibling of `h`, or of the nearest ancestor
/// that has one; `None` once no ancestor has one (document end).
pub open spec fn next_sibling_target(
    doc: DomNode,
    h: Seq<usize>,
    visited: Set<Seq<usize>>,
) -> Option<Seq<usize>>
    decreases h.len(),
{
    if h.len() == 0 {
        None
    } else {
        let p = h.drop_last();
        match node_at(doc, p) {
            DomNode::Container(c) => match sibling_scan(
                p,
                h.last() + 1,
                c.children@.len() as int,
                visited,
            ) {
                Some(t) => Some(t),
                None => if p.len() > 0 {
                    next_sibling_target(doc, p, visited)
                } else {
                    None
                },
            },
            _ => None,
        }
    }
}

/// The address emitted after `h` when walking backward out of `h`: the
/// nearest not yet visited previous sibling of `h` if there is one, else
/// the nearest not yet visited ancestor; `None` once every ancestor was
/// already emitted.
pub open spec fn prev_target(h: Seq<usize>, visited: Set<Seq<usize>>) -> Option<Seq<usize>>
    decreases h.len(),
{
    if h.len() == 0 {
        None
    } else {
        let p = h.drop_last();
        match sibling_scan_back(p, h.last() - 1, visited) {
            Some(t) => Some(t),
            None => if p.len() > 0 {
                if !visited.contains(p) {
                    Some(p)
                } else {
                    prev_target(p, visited)
                }
            } else if !visited.contains(p) {
                Some(p)
            } else {
                None
            },
        }
    }
}

/// One forward step from `h`: descend to the first child when there is
/// one and it was not yet visited, otherwise move to the next unvisited
/// sibling of `h` or of an ancestor; `None` at the document end.
pub open spec fn fwd_step(doc: DomNode, h: Seq<usize>, visited: Set<Seq<usize>>) -> Option<
    Seq<usize>,
> {
    match node_at(doc, h) {
        DomNode::Container(c) => if c.children@.len() > 0 && !visited.contains(h.push(0)) {
            Some(h.push(0))
        } else if h.len() > 0 {
            next_sibling_target(doc, h, visited)
        } else {
            None
        },
        _ => if h.len() > 0 {
            next_sibling_target(doc, h, visited)
        } else {
            None
        },
    }
}

/// One backward step from `h`: descend to the last child when `h` itself
/// and that child are both unvisited, otherwise move to the previous
/// sibling or an unvisited ancestor; `None` at the document start.
pub open spec fn bwd_step(doc: DomNode, h: Seq<usize>, visited: Set<Seq<usize>>) -> Option<
    Seq<usize>,
> {
    match node_at(doc, h) {
        DomNode::Container(c) => if !visited.contains(h) && c.children@.len() > 0
            && !visited.contains(h.push((c.children@.len() - 1) as usize)) {
            Some(h.push((c.children@.len() - 1) as usize))
        } else if h.len() > 0 {
            prev_target(h, visited)
        } else {
            None
        },
        _ => if h.len() > 0 {
            prev_target(h, visited)
        } else {
            None
        },
    }
}

/// Look for an address in the visited run.
fn contains_handle(v: &Vec<DomHandle>, h: &DomHandle) -> (r: bool)
    ensures
        r == handles_set(v@).contains(h@),
{
    let mut i: usize = 0;
    while i < v.len()
        invariant
            i <= v@.len(),
            forall|j: int| 0 <= j < i ==> v@[j]@ != h@,
        decreases v@.len() - i,
    {
        if v[i].same_as(h) {
            return true;
        }
        i += 1;
    }
    proof {
        if handles_set(v@).contains(h@) {
            let j = choose|j: int| 0 <= j < v@.len() && v@[j]@ == h@;
            assert(v@[j]@ != h@);
        }
    }
    false
}

/// Record an address as visited.
fn push_handle(v: &mut Vec<DomHandle>, h: DomHandle)
    ensures
        handles_set(final(v)@) == handles_set(old(v)@).insert(h@),
{
    let ghost before = v@;
    v.push(h);
    proof {
        assert forall|x: Seq<usize>| handles_set(v@).contains(x) == handles_set(
            before,
        ).insert(h@).contains(x) by {
            if handles_set(v@).contains(x) {
                let i = choose|i: int| 0 <= i < v@.len() && v@[i]@ == x;
                if i < before.len() {
                    assert(before[i]@ == x);
                }
            }
            if handles_set(before).insert(h@).contains(x) {
                if handles_set(before).contains(x) {
                    let i = choose|i: int| 0 <= i < before.len() && before[i]@ == x;
                    assert(v@[i]@ == x);
                } else {
                    assert(v@[before.len() as int]@ == x);
                }
            }
        }
        assert(handles_set(v@) =~= handles_set(before).insert(h@));
    }
}

/// A double-ended preorder iterator over the whole document, anchored at
/// an arbitrary node. Pulling forward moves toward the document end,
/// pulling backward toward the document start; an address emitted from
/// either end is recorded so that no direction re-descends into a region
/// the other already consumed.
pub struct DomNodeIterator<'a> {
    started: bool,
    dom: &'a Dom,
    current: Option<&'a DomNode>,
    visited: Vec<DomHandle>,
}

impl<'a> DomNodeIterator<'a> {
    /// The document walked over.
    pub closed spec fn doc(self) -> DomNode {
        self.dom.doc()
    }

    /// The address the iterator stands at: the address last emitted, or
    /// `None` once the walk is exhausted in the direction last taken.
    pub closed spec fn cur(self) -> Option<Seq<usize>> {
        match self.current {
            Some(n) => Some(n.handle_spec()),
            None => None,
        }
    }

    /// Whether a first pull has happened yet.
    pub closed spec fn started_spec(self) -> bool {
        self.started
    }

    /// The set of addresses recorded as emitted.
    pub closed spec fn visited_set(self) -> Set<Seq<usize>> {
        handles_set(self.visited@)
    }

    /// Internal consistency: the document is well formed and the current
    /// node, if any, really sits in it at its own address.
    pub closed spec fn inv(self) -> bool {
        &&& self.dom.wf()
        &&& match self.current {
            Some(n) => valid_path(self.dom.doc(), n.handle_spec()) && *n == node_at(
                self.dom.doc(),
                n.handle_spec(),
            ),
            None => true,
        }
    }

    /// Begin a whole-document walk anchored at `dom_node`.
    pub fn over(dom: &'a Dom, dom_node: &'a DomNode) -> (r: DomNodeIterator<'a>)
        requires
            dom.wf(),
            valid_path(dom.doc(), dom_node.handle_spec()),
            *dom_node == node_at(dom.doc(), dom_node.handle_spec()),
        ensures
            r.inv(),
            r.doc() == dom.doc(),
            !r.started_spec(),
            r.cur() == Some(dom_node.handle_spec()),
            r.visited_set() == Set::<Seq<usize>>::empty(),
    {
        let r = DomNodeIterator {
            started: false,
            dom,
            current: Some(dom_node),
            visited: Vec::new(),
        };
        proof {
            assert(r.visited_set() =~= Set::<Seq<usize>>::empty());
        }
        r
    }

    /// Walk up from `handle` to the next not yet visited sibling of it
    /// or of the nearest ancestor that has one, per `next_sibling_target`:
    /// an address emitted once is never emitted again, so visited siblings
    /// are skipped.
    pub fn next_sibling_or_parent(&self, handle: &DomHandle) -> (r: Option<&'a DomNode>)
        requires
            self.inv(),
            valid_path(self.doc(), handle@),
            handle@.len() > 0,
        ensures
            match r {
                Some(n) => next_sibling_target(self.doc(), handle@, self.visited_set()) == Some(
                    n.handle_spec(),
                ) && valid_path(self.doc(), n.handle_spec()) && *n == node_at(
                    self.doc(),
                    n.handle_spec(),
                ),
                None => next_sibling_target(self.doc(), handle@, self.visited_set()) is None,
            },
    {
        let ghost doc = self.doc();
        let ghost orig = handle@;
        let ghost vis = self.visited_set();
        let mut h: DomHandle = handle.clone();
        loop
            invariant
                self.inv(),
                doc == self.doc(),
                orig == handle@,
                vis == self.visited_set(),
                h@.len() > 0,
                valid_path(doc, h@),
                next_sibling_target(doc, h@, vis) == next_sibling_target(doc, orig, vis),
            decreases h@.len(),
        {
            proof {
                lemma_parent_of_valid(doc, h@);
            }
            let parent_handle = h.parent_handle();
            let parent = self.dom.lookup_node(&parent_handle);
            match parent {
                DomNode::Container(c) => {
                    let idx = h.index_in_parent();
                    let len = c.children.len();
                    proof {
                        assert(idx < len);
                    }
                    let mut j: usize = idx + 1;
                    while j < len
                        invariant
                            self.inv(),
                            doc == self.doc(),
                            orig == handle@,
                            vis == self.visited_set(),
                            h@.len() > 0,
                            valid_path(doc, h@),
                            valid_path(doc, parent_handle@),
                            parent_handle@ == h@.drop_last(),
                            node_at(doc, parent_handle@) == *parent,
                            *parent == DomNode::Container(*c),
                            idx == h@.last(),
                            len == c.children@.len(),
                            idx < j <= len,
                            next_sibling_target(doc, h@, vis) == next_sibling_target(
                                doc,
                                orig,
                                vis,
                            ),
                            sibling_scan(parent_handle@, h@.last() + 1, len as int, vis)
                                == sibling_scan(parent_handle@, j as int, len as int, vis),
                        decreases len - j,
                    {
                        let cand = parent_handle.child_handle(j);
                        if !contains_handle(&self.visited, &cand) {
                            let sibling = &c.children[j];
                            proof {
                                let t = parent_handle@.push(j);
                                assert(sibling_scan(parent_handle@, j as int, len as int, vis)
                                    == Some(t));
                                assert(next_sibling_target(doc, h@, vis) == Some(t));
                                lemma_node_at_child(doc, parent_handle@, j);
                                lemma_node_at_props(doc, t);
                                assert(doc.handle_spec() + t =~= t);
                                assert(sibling.handle_spec() == t);
                            }
                            return Some(sibling);
                        }
                        j += 1;
                    }
                    proof {
                        assert(sibling_scan(parent_handle@, h@.last() + 1, len as int, vis)
                            is None);
                    }
                    if parent_handle.has_parent() {
                        h = parent_handle;
                    } else {
                        return None;
                    }
                },
                _ => {
                    proof {
                        assert(false);
                    }
                },
            }
        }
    }

    /// Walk up from `handle` to its nearest not yet visited previous
    /// sibling, or to the nearest not yet visited ancestor, per
    /// `prev_target`; an ancestor emitted this way is recorded as visited
    /// at once. An address emitted once is never emitted again, so
    /// visited siblings are skipped.
    pub fn prev_sibling_or_parent(&mut self, handle: &DomHandle) -> (r: Option<&'a DomNode>)
        requires
            old(self).inv(),
            valid_path(old(self).doc(), handle@),
            handle@.len() > 0,
        ensures
            final(self).inv(),
            final(self).doc() == old(self).doc(),
            final(self).cur() == old(self).cur(),
            final(self).started_spec() == old(self).started_spec(),
            match r {
                Some(n) => prev_target(handle@, old(self).visited_set()) == Some(n.handle_spec())
                    && valid_path(old(self).doc(), n.handle_spec()) && *n == node_at(
                    old(self).doc(),
                    n.handle_spec(),
                ) && final(self).visited_set() == (if is_strict_prefix(n.handle_spec(), handle@) {
                    old(self).visited_set().insert(n.handle_spec())
                } else {
                    old(self).visited_set()
                }),
                None => prev_target(handle@, old(self).visited_set()) is None && final(self).visited_set() == old(self).visited_set(),
            },
    {
        let ghost doc = old(self).doc();
        let ghost orig = handle@;
        let ghost vis0 = old(self).visited_set();
        let mut h: DomHandle = handle.clone();
        loop
            invariant
                self.inv(),
                doc == self.doc(),
                doc == old(self).doc(),
                orig == handle@,
                vis0 == old(self).visited_set(),
                self.visited_set() == vis0,
                self.cur() == old(self).cur(),
                self.started_spec() == old(self).started_spec(),
                h@.len() > 0,
                h@.len() <= orig.len(),
                h@ == orig.take(h@.len() as int),
                valid_path(doc, h@),
                prev_target(h@, vis0) == prev_target(orig, vis0),
            decreases h@.len(),
        {
            proof {
                lemma_parent_of_valid(doc, h@);
            }
            let parent_handle = h.parent_handle();
            let idx = h.index_in_parent();
            let parent = self.dom.lookup_node(&parent_handle);
            let mut j: usize = idx;
            while j > 0
                invariant
                    self.inv(),
                    doc == self.doc(),
                    doc == old(self).doc(),
                    orig == handle@,
                    vis0 == old(self).visited_set(),
                    self.visited_set() == vis0,
                    self.cur() == old(self).cur(),
                    self.started_spec() == old(self).started_spec(),
                    valid_path(doc, h@),
                    valid_path(doc, parent_handle@),
                    h@.len() > 0,
                    h@.len() <= orig.len(),
                    h@ == orig.take(h@.len() as int),
                    parent_handle@ == h@.drop_last(),
                    node_at(doc, parent_handle@) == *parent,
                    node_at(doc, parent_handle@) is Container,
                    idx < node_at(doc, parent_handle@)->Container_0.children@.len(),
                    idx == h@.last(),
                    j <= idx,
                    prev_target(h@, vis0) == prev_target(orig, vis0),
                    sibling_scan_back(parent_handle@, h@.last() - 1, vis0) == sibling_scan_back(
                        parent_handle@,
                        j as int - 1,
                        vis0,
                    ),
                decreases j,
            {
                let cand = parent_handle.child_handle(j - 1);
                if !contains_handle(&self.visited, &cand) {
                    match parent {
                        DomNode::Container(c) => {
                            let sibling = &c.children[j - 1];
                            proof {
                                let t = parent_handle@.push((j - 1) as usize);
                                assert(sibling_scan_back(parent_handle@, j as int - 1, vis0)
                                    == Some(t));
                                assert(prev_target(h@, vis0) == Some(t));
                                lemma_node_at_child(doc, parent_handle@, (j - 1) as usize);
                                lemma_node_at_props(doc, t);
                                assert(doc.handle_spec() + t =~= t);
                                assert(sibling.handle_spec() == t);
                                assert(!is_strict_prefix(t, orig)) by {
                                    if is_strict_prefix(t, orig) {
                                        assert(t =~= h@);
                                        assert(t.last() == h@.last());
                                    }
                                }
                            }
                            return Some(sibling);
                        },
                        _ => {
                            proof {
                                assert(false);
                            }
                        },
                    }
                }
                j -= 1;
            }
            proof {
                assert(sibling_scan_back(parent_handle@, h@.last() - 1, vis0) is None);
            }
            if parent_handle.has_parent() {
                if !contains_handle(&self.visited, &parent_handle) {
                    proof {
                        assert(prev_target(h@, vis0) == Some(parent_handle@));
                        lemma_node_at_props(doc, parent_handle@);
                        assert(doc.handle_spec() + parent_handle@ =~= parent_handle@);
                        assert(h@.drop_last() =~= orig.take(h@.len() - 1));
                        assert(is_strict_prefix(parent_handle@, orig));
                    }
                    push_handle(&mut self.visited, parent_handle);
                    return Some(parent);
                } else {
                    proof {
                        assert(h@.drop_last() =~= orig.take(h@.len() - 1));
                    }
                    h = parent_handle;
                }
            } else {
                if !contains_handle(&self.visited, &parent_handle) {
                    proof {
                        assert(prev_target(h@, vis0) == Some(parent_handle@));
                        lemma_node_at_props(doc, parent_handle@);
                        assert(doc.handle_spec() + parent_handle@ =~= parent_handle@);
                        assert(parent_handle@ =~= orig.take(0));
                        assert(is_strict_prefix(parent_handle@, orig));
                    }
                    push_handle(&mut self.visited, parent_handle);
                    return Some(parent);
                } else {
                    return None;
                }
            }
        }
    }

    /// Pull the next node in document order. The first pull emits the
    /// anchor; every later pull takes one `fwd_step` from the current
    /// address, using the visited set as it stood before the pull, and
    /// the address pulled from is recorded as visited.
    pub fn next(&mut self) -> (r: Option<&'a DomNode>)
        requires
            old(self).inv(),
        ensures
            final(self).inv(),
            final(self).doc() == old(self).doc(),
            old(self).cur() is None ==> r is None && final(self).cur() is None && final(self).visited_set() == old(self).visited_set() && final(self).started_spec() == old(self).started_spec(),
            old(self).cur() matches Some(h) ==> !old(self).started_spec() ==> final(self).started_spec() && final(self).cur() == Some(h) && final(self).visited_set() == old(self).visited_set().insert(h) && (r matches Some(n) && n.handle_spec() == h && *n
                == node_at(old(self).doc(), h)) && valid_path(old(self).doc(), h),
            old(self).cur() matches Some(h) ==> old(self).started_spec() ==> ({
                let t = fwd_step(old(self).doc(), h, old(self).visited_set());
                &&& final(self).started_spec()
                &&& final(self).cur() == t
                &&& (t matches Some(th) ==> handle_lt(h, th))
                &&& final(self).visited_set() == old(self).visited_set().insert(h)
                &&& match r {
                    Some(n) => t == Some(n.handle_spec()) && valid_path(
                        old(self).doc(),
                        n.handle_spec(),
                    ) && *n == node_at(old(self).doc(), n.handle_spec()),
                    None => t is None,
                }
            }),
    {
        let cur = match self.current {
            Some(c) => c,
            None => {
                return None;
            },
        };
        let ghost h = cur.handle_spec();
        let ghost doc = self.doc();
        let ghost vis0 = self.visited_set();
        let cur_handle = cur.handle();
        if self.started {
            proof {
                lemma_forward_moves_forward(doc, h, vis0);
            }
            match cur {
                DomNode::Container(c) => {
                    let first_child_handle = cur_handle.child_handle(0);
                    if c.children.len() > 0 && !contains_handle(&self.visited, &first_child_handle)
                    {
                        let child = &c.children[0];
                        proof {
                            lemma_node_at_child(doc, h, 0);
                            lemma_node_at_props(doc, h.push(0));
                            assert(doc.handle_spec() + h.push(0) =~= h.push(0));
                            assert(child.handle_spec() == h.push(0));
                        }
                        self.current = Some(child);
                    } else if cur_handle.has_parent() {
                        let t = self.next_sibling_or_parent(&cur_handle);
                        self.current = t;
                    } else {
                        // The root's children are consumed and it has no
                        // sibling: the walk ends.
                        self.current = None;
                    }
                },
                _ => {
                    if cur_handle.has_parent() {
                        let t = self.next_sibling_or_parent(&cur_handle);
                        self.current = t;
                    } else {
                        self.current = None;
                    }
                },
            }
        } else {
            self.started = true;
        }
        push_handle(&mut self.visited, cur_handle);
        self.current
    }

    /// Pull the previous node in document order. The first pull emits the
    /// anchor; every later pull takes one `bwd_step` from the current
    /// address, using the visited set as it stood before the pull; the
    /// address pulled from, and an ancestor emitted on the way up, are
    /// recorded as visited.
    pub fn next_back(&mut self) -> (r: Option<&'a DomNode>)
        requires
            old(self).inv(),
        ensures
            final(self).inv(),
            final(self).doc() == old(self).doc(),
            old(self).cur() is None ==> r is None && final(self).cur() is None && final(self).visited_set() == old(self).visited_set() && final(self).started_spec() == old(self).started_spec(),
            old(self).cur() matches Some(h) ==> !old(self).started_spec() ==> final(self).started_spec() && final(self).cur() == Some(h) && final(self).visited_set() == old(self).visited_set().insert(h) && (r matches Some(n) && n.handle_spec() == h && *n
                == node_at(old(self).doc(), h)) && valid_path(old(self).doc(), h),
            old(self).cur() matches Some(h) ==> old(self).started_spec() ==> ({
                let t = bwd_step(old(self).doc(), h, old(self).visited_set());
                &&& final(self).started_spec()
                &&& final(self).cur() == t
                &&& (t matches Some(th) ==> th != h && (handle_lt(th, h) || is_strict_prefix(
                    h,
                    th,
                )))
                &&& final(self).visited_set() == (match t {
                    Some(p) => if is_strict_prefix(p, h) {
                        old(self).visited_set().insert(h).insert(p)
                    } else {
                        old(self).visited_set().insert(h)
                    },
                    None => old(self).visited_set().insert(h),
                })
                &&& match r {
                    Some(n) => t == Some(n.handle_spec()) && valid_path(
                        old(self).doc(),
                        n.handle_spec(),
                    ) && *n == node_at(old(self).doc(), n.handle_spec()),
                    None => t is None,
                }
            }),
    {
        let cur = match self.current {
            Some(c) => c,
            None => {
                return None;
            },
        };
        let ghost h = cur.handle_spec();
        let ghost doc = self.doc();
        let ghost vis0 = self.visited_set();
        let cur_handle = cur.handle();
        if self.started {
            proof {
                lemma_backward_moves(doc, h, vis0);
                lemma_backward_step_direction(doc, h, vis0);
            }
            match cur {
                DomNode::Container(c) => {
                    let mut descend = false;
                    if !contains_handle(&self.visited, &cur_handle) {
                        if c.children.len() > 0 {
                            let last_handle = cur_handle.child_handle(c.children.len() - 1);
                            if !contains_handle(&self.visited, &last_handle) {
                                descend = true;
                            }
                        }
                    }
                    if descend {
                        let last_idx = c.children.len() - 1;
                        let child = &c.children[last_idx];
                        proof {
                            lemma_node_at_child(doc, h, (c.children@.len() - 1) as usize);
                            lemma_node_at_props(doc, h.push((c.children@.len() - 1) as usize));
                            assert(doc.handle_spec() + h.push((c.children@.len() - 1) as usize)
                                =~= h.push((c.children@.len() - 1) as usize));
                            assert(!is_strict_prefix(
                                h.push((c.children@.len() - 1) as usize),
                                h,
                            ));
                        }
                        self.current = Some(child);
                    } else if cur_handle.has_parent() {
                        let t = self.prev_sibling_or_parent(&cur_handle);
                        self.current = t;
                    } else {
                        self.current = None;
                    }
                },
                _ => {
                    if cur_handle.has_parent() {
                        let t = self.prev_sibling_or_parent(&cur_handle);
                        self.current = t;
                    } else {
                        self.current = None;
                    }
                },
            }
        } else {
            self.started = true;
        }
        push_handle(&mut self.visited, cur_handle);
        self.current
    }
}

/// A lazy view over a whole-document walk, anchored at a node, that
/// keeps only the text nodes met while pulling forward. Each pull owes
/// exactly the first text node of the document at or after the walk's
/// position, and `None` only once no text node remains ahead.
pub struct TextNodeIterator<'a> {
    inner: DomNodeIterator<'a>,
}

impl<'a> TextNodeIterator<'a> {
    /// Internal consistency: the underlying walk is consistent, and no
    /// address later than its position was recorded as visited — as
    /// holds of a freshly anchored walk and is kept by every forward
    /// pull.
    pub closed spec fn inv(self) -> bool {
        &&& self.inner.inv()
        &&& match self.inner.cur() {
            Some(x) => forall|v: Seq<usize>|
                self.inner.visited_set().contains(v) ==> !handle_lt(x, v),
            None => true,
        }
    }

    /// The document walked over.
    pub closed spec fn doc(self) -> DomNode {
        self.inner.doc()
    }

    /// The address the underlying walk stands at.
    pub closed spec fn cur(self) -> Option<Seq<usize>> {
        self.inner.cur()
    }

    /// Whether a first pull has happened yet.
    pub closed spec fn started_spec(self) -> bool {
        self.inner.started_spec()
    }

    /// Begin a text-only forward walk of the whole document from
    /// `dom_node` (including it).
    pub fn over(dom: &'a Dom, dom_node: &'a DomNode) -> (r: TextNodeIterator<'a>)
        requires
            dom.wf(),
            valid_path(dom.doc(), dom_node.handle_spec()),
            *dom_node == node_at(dom.doc(), dom_node.handle_spec()),
        ensures
            r.inv(),
            r.doc() == dom.doc(),
            !r.started_spec(),
            r.cur() == Some(dom_node.handle_spec()),
    {
        TextNodeIterator { inner: DomNodeIterator::over(dom, dom_node) }
    }

    /// Pull forward until the walk yields a text node: the first text
    /// node of the document at the walk's position (on the first pull)
    /// or strictly after it (on every later pull), in document order;
    /// `None` exactly when no text node remains there or ahead.
    pub fn next(&mut self) -> (r: Option<&'a TextNode>)
        requires
            old(self).inv(),
        ensures
            final(self).inv(),
            final(self).doc() == old(self).doc(),
            old(self).cur() is None ==> r is None && final(self).cur() is None,
            old(self).cur() matches Some(h0) ==> ({
                let inclusive = !old(self).started_spec();
                &&& final(self).started_spec()
                &&& match r {
                    Some(t) => {
                        &&& valid_path(old(self).doc(), t.handle@)
                        &&& node_at(old(self).doc(), t.handle@) == DomNode::Text(*t)
                        &&& ((inclusive && t.handle@ == h0) || handle_lt(h0, t.handle@))
                        &&& final(self).cur() == Some(t.handle@)
                        &&& forall|y: Seq<usize>|
                            valid_path(old(self).doc(), y) && (#[trigger] node_at(
                                old(self).doc(),
                                y,
                            )) is Text && ((inclusive && y == h0) || handle_lt(h0, y)) ==> y
                                == t.handle@ || handle_lt(t.handle@, y)
                    },
                    None => final(self).cur() is None && (forall|y: Seq<usize>|
                        valid_path(old(self).doc(), y) && (#[trigger] node_at(
                            old(self).doc(),
                            y,
                        )) is Text ==> !((inclusive && y == h0) || handle_lt(h0, y))),
                }
            }),
    {
        let ghost doc = old(self).doc();
        let ghost h0opt = old(self).cur();
        let ghost inclusive = !old(self).started_spec();
        match self.inner.current {
            None => {
                return None;
            },
            Some(_) => {
            },
        }
        proof {
            let x = h0opt->0;
            assert(!handle_lt(x, x)) by {
                if handle_lt(x, x) {
                    lemma_lt_asym(x, x);
                }
            }
        }
        loop
            invariant
                self.inner.inv(),
                doc == old(self).doc(),
                self.inner.doc() == doc,
                h0opt == old(self).cur(),
                h0opt is Some,
                inclusive == !old(self).started_spec(),
                self.inner.cur() is Some,
                forall|v: Seq<usize>|
                    self.inner.visited_set().contains(v) ==> !handle_lt(
                        self.inner.cur()->0,
                        v,
                    ),
                self.inner.cur()->0 == h0opt->0 || handle_lt(h0opt->0, self.inner.cur()->0),
                old(self).started_spec() ==> self.inner.started_spec(),
                !self.inner.started_spec() ==> inclusive && self.inner.cur()->0 == h0opt->0,
                forall|y: Seq<usize>|
                    valid_path(doc, y) && node_at(doc, y) is Text && ((inclusive && y == h0opt->0)
                        || handle_lt(h0opt->0, y)) ==> y == self.inner.cur()->0 || handle_lt(
                        self.inner.cur()->0,
                        y,
                    ),
                self.inner.started_spec() && ((inclusive && self.inner.cur()->0 == h0opt->0)
                    || handle_lt(h0opt->0, self.inner.cur()->0)) ==> !(node_at(
                    doc,
                    self.inner.cur()->0,
                ) is Text),
            decreases (if self.inner.started_spec() {
                0int
            } else {
                1int
            }), later_count(doc, self.inner.cur()->0),
        {
            let ghost pre = self.inner.cur()->0;
            let ghost prestarted = self.inner.started_spec();
            let ghost vis = self.inner.visited_set();
            proof {
                if prestarted {
                    lemma_forward_step_is_successor(doc, pre, vis);
                }
            }
            match self.inner.next() {
                None => {
                    proof {
                        assert forall|y: Seq<usize>|
                            valid_path(doc, y) && node_at(doc, y) is Text implies !((inclusive && y
                            == h0opt->0) || handle_lt(h0opt->0, y)) by {
                            if (inclusive && y == h0opt->0) || handle_lt(h0opt->0, y) {
                                if y != pre {
                                    assert(handle_lt(pre, y));
                                }
                            }
                        }
                    }
                    return None;
                },
                Some(node) => {
                    let ghost newh = self.inner.cur()->0;
                    proof {
                        assert(!handle_lt(pre, pre)) by {
                            if handle_lt(pre, pre) {
                                lemma_lt_asym(pre, pre);
                            }
                        }
                        if prestarted {
                            assert(handle_lt(pre, newh));
                            assert(newh != pre) by {
                                if newh == pre {
                                    lemma_lt_asym(pre, newh);
                                }
                            }
                            assert(!handle_lt(newh, newh)) by {
                                if handle_lt(newh, newh) {
                                    lemma_lt_asym(newh, newh);
                                }
                            }
                            assert forall|v: Seq<usize>|
                                self.inner.visited_set().contains(v) implies !handle_lt(
                                newh,
                                v,
                            ) by {
                                if handle_lt(newh, v) {
                                    if v == pre {
                                        lemma_lt_trans(pre, newh, pre);
                                    } else {
                                        lemma_lt_trans(pre, newh, v);
                                    }
                                }
                            }
                            if h0opt->0 != pre {
                                lemma_lt_trans(h0opt->0, pre, newh);
                            }
                            assert forall|y: Seq<usize>|
                                valid_path(doc, y) && node_at(doc, y) is Text && ((inclusive && y
                                    == h0opt->0) || handle_lt(h0opt->0, y)) implies y == newh
                                || handle_lt(newh, y) by {
                                if y != pre {
                                    assert(handle_lt(pre, y));
                                }
                            }
                        }
                    }
                    match node.as_text() {
                        Some(t) => {
                            return Some(t);
                        },
                        None => {
                        },
                    }
                    proof {
                        if prestarted {
                            lemma_later_count_decreases(doc, pre, newh);
                        }
                    }
                },
            }
        }
    }
}

} // verus!