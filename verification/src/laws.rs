//! The laws the traversal obeys, stated over the preorder model and the
//! step functions that the iterators' contracts are written in.

use vstd::prelude::*;

use crate::handle::{
    handle_lt, lemma_lt_asym, lemma_lt_extend, lemma_lt_first_diff, lemma_lt_inversion,
    lemma_lt_trans,
};
use crate::node::{
    lemma_node_at_child, lemma_node_at_props, lemma_parent_of_valid, lemma_valid_prefix, node_at,
    preorder, preorder_from, valid_path, wf_node, ContainerNode, DomNode,
};
use crate::node_iter::{
    bwd_step, fwd_step, is_strict_prefix, next_sibling_target, prev_target, sibling_scan,
    sibling_scan_back,
};

verus! {

/// Preorder correctness: the sequence a whole walk emits has the node
/// itself first, and, for a container, the children's whole subtrees
/// after it, left to right — a container stands before every one of its
/// descendants.
pub proof fn lemma_preorder_parent_first(n: DomNode)
    ensures
        preorder(n).len() >= 1,
        preorder(n).first() == n,
        n matches DomNode::Container(c) ==> preorder(n) == seq![n] + preorder_from(c, 0),
        !(n is Container) ==> preorder(n) == seq![n],
{
}

/// Preorder correctness, the left-to-right part: the subtrees of a
/// container's children from `i` on are the subtree of child `i`
/// followed by the subtrees of the children after it.
pub proof fn lemma_preorder_children_in_order(c: ContainerNode, i: int)
    requires
        0 <= i < c.children@.len(),
    ensures
        preorder_from(c, i) == preorder(c.children@[i]) + preorder_from(c, i + 1),
{
}

/// Subtree containment: every node that a subtree walk emits lies inside
/// that subtree — its address extends the subtree root's address.
pub proof fn lemma_subtree_containment(n: DomNode, i: int)
    requires
        wf_node(n),
        0 <= i < preorder(n).len(),
    ensures
        preorder(n)[i].handle_spec().len() >= n.handle_spec().len(),
        preorder(n)[i].handle_spec().take(n.handle_spec().len() as int) == n.handle_spec(),
    decreases n, 0int, 0int,
{
    if i == 0 {
        assert(preorder(n)[0] == n);
        assert(n.handle_spec().take(n.handle_spec().len() as int) =~= n.handle_spec());
    } else {
        let c = n->Container_0;
        assert(preorder(n)[i] == preorder_from(c, 0)[i - 1]);
        lemma_subtree_from_containment(n, c, 0, i - 1);
    }
}

/// Helper for subtree containment, over the children's subtrees from
/// index `j` on.
proof fn lemma_subtree_from_containment(n: DomNode, c: ContainerNode, j: int, i: int)
    requires
        wf_node(n),
        n == DomNode::Container(c),
        0 <= j,
        0 <= i < preorder_from(c, j).len(),
    ensures
        preorder_from(c, j)[i].handle_spec().len() > c.handle@.len(),
        preorder_from(c, j)[i].handle_spec().take(c.handle@.len() as int) == c.handle@,
        preorder_from(c, j)[i].handle_spec()[c.handle@.len() as int] >= j,
    decreases c, c.children@.len() - j, 1int,
{
    if j >= c.children@.len() {
        assert(preorder_from(c, j).len() == 0);
    }
    assert(c.children.len() == c.children@.len());
    let child = c.children@[j];
    if i < preorder(child).len() {
        assert(preorder_from(c, j)[i] == preorder(child)[i]);
        assert(n->Container_0 == c);
        assert((n->Container_0.children@[j]).handle_spec() == n->Container_0.handle@.push(
            j as usize,
        ) && wf_node(n->Container_0.children@[j]));
        assert(child.handle_spec() == c.handle@.push(j as usize));
        assert(wf_node(child));
        lemma_subtree_containment(child, i);
        let m = preorder(child)[i].handle_spec();
        assert(m.take(child.handle_spec().len() as int) == child.handle_spec());
        assert(forall|x: int|
            0 <= x < child.handle_spec().len() ==> m.take(child.handle_spec().len() as int)[x]
                == m[x]);
        assert(m.take(c.handle@.len() as int) =~= c.handle@);
        assert(m[c.handle@.len() as int] == child.handle_spec()[c.handle@.len() as int]);
        assert(m[c.handle@.len() as int] == j);
    } else {
        assert(preorder_from(c, j)[i] == preorder_from(c, j + 1)[i - preorder(child).len()]);
        lemma_subtree_from_containment(n, c, j + 1, i - preorder(child).len() as int);
    }
}

/// Preorder correctness in full: a whole subtree walk emits addresses in
/// strictly increasing document order — an ancestor before each of its
/// descendants, earlier siblings' subtrees entirely before later ones —
/// so it also never emits an address twice.
pub proof fn lemma_preorder_sorted(n: DomNode, i: int, j: int)
    requires
        wf_node(n),
        0 <= i < j < preorder(n).len(),
    ensures
        handle_lt(preorder(n)[i].handle_spec(), preorder(n)[j].handle_spec()),
    decreases n, 0int, 0int,
{
    let c = n->Container_0;
    if i == 0 {
        assert(preorder(n)[0] == n);
        assert(preorder(n)[j] == preorder_from(c, 0)[j - 1]);
        lemma_subtree_from_containment(n, c, 0, j - 1);
        let m = preorder(n)[j].handle_spec();
        assert(n.handle_spec() == c.handle@);
        lemma_lt_extend(n.handle_spec(), m);
    } else {
        assert(preorder(n)[i] == preorder_from(c, 0)[i - 1]);
        assert(preorder(n)[j] == preorder_from(c, 0)[j - 1]);
        lemma_preorder_from_sorted(n, c, 0, i - 1, j - 1);
    }
}

/// Helper for the sorted law, over the children's subtrees from `k` on.
proof fn lemma_preorder_from_sorted(n: DomNode, c: ContainerNode, k: int, i: int, j: int)
    requires
        wf_node(n),
        n == DomNode::Container(c),
        0 <= k,
        0 <= i < j < preorder_from(c, k).len(),
    ensures
        handle_lt(preorder_from(c, k)[i].handle_spec(), preorder_from(c, k)[j].handle_spec()),
    decreases c, c.children@.len() - k, 1int,
{
    if k >= c.children@.len() {
        assert(preorder_from(c, k).len() == 0);
    }
    assert(c.children.len() == c.children@.len());
    assert(n->Container_0 == c);
    assert((n->Container_0.children@[k]).handle_spec() == n->Container_0.handle@.push(k as usize)
        && wf_node(n->Container_0.children@[k]));
    let child = c.children@[k];
    let len = preorder(child).len() as int;
    if j < len {
        assert(preorder_from(c, k)[i] == preorder(child)[i]);
        assert(preorder_from(c, k)[j] == preorder(child)[j]);
        lemma_preorder_sorted(child, i, j);
    } else if i >= len {
        assert(preorder_from(c, k)[i] == preorder_from(c, k + 1)[i - len]);
        assert(preorder_from(c, k)[j] == preorder_from(c, k + 1)[j - len]);
        lemma_preorder_from_sorted(n, c, k + 1, i - len, j - len);
    } else {
        assert(preorder_from(c, k)[i] == preorder(child)[i]);
        assert(preorder_from(c, k)[j] == preorder_from(c, k + 1)[j - len]);
        lemma_subtree_containment(child, i);
        lemma_subtree_from_containment(n, c, k + 1, j - len);
        let a = preorder(child)[i].handle_spec();
        let b = preorder_from(c, k + 1)[j - len].handle_spec();
        let d = c.handle@.len() as int;
        assert(a.take(child.handle_spec().len() as int) == child.handle_spec());
        assert(forall|x: int|
            0 <= x < child.handle_spec().len() ==> a.take(child.handle_spec().len() as int)[x]
                == a[x]);
        assert(a.take(d) =~= c.handle@);
        assert(a.len() >= d + 1);
        assert(a[d] == child.handle_spec()[d]);
        assert(a[d] == k);
        assert(b.take(d) == c.handle@);
        assert(b[d] >= k + 1);
        assert(a.take(d) == b.take(d));
        lemma_lt_first_diff(a, b, d);
    }
}

/// Boundary termination, backward half: once the root's address is
/// visited — as it is right after the root itself was emitted — a
/// backward step from the root leads nowhere.
pub proof fn lemma_backward_from_root_ends(doc: DomNode, visited: Set<Seq<usize>>)
    requires
        visited.contains(Seq::<usize>::empty()),
    ensures
        bwd_step(doc, Seq::<usize>::empty(), visited) is None,
{
}

/// An address every one of whose segments names its parent's last child,
/// and whose node has nothing below it: the last position of the
/// document in preorder.
pub open spec fn is_last_position(doc: DomNode, h: Seq<usize>) -> bool {
    &&& valid_path(doc, h)
    &&& (node_at(doc, h) is Container ==> node_at(doc, h)->Container_0.children@.len() == 0)
    &&& forall|k: int|
        0 <= k < h.len() ==> h[k] as int + 1 == (#[trigger] node_at(
            doc,
            h.take(k),
        ))->Container_0.children@.len()
}

/// A forward sibling scan yields the address of a child of `p` at or
/// after the start index, and that address was not visited.
proof fn lemma_sibling_scan_shape(p: Seq<usize>, i: int, len: int, visited: Set<Seq<usize>>)
    requires
        len <= usize::MAX,
    ensures
        sibling_scan(p, i, len, visited) matches Some(t) ==> exists|m: usize|
            i <= m < len && t == #[trigger] p.push(m) && !visited.contains(t),
    decreases len - i,
{
    if 0 <= i < len && visited.contains(p.push(i as usize)) {
        lemma_sibling_scan_shape(p, i + 1, len, visited);
        match sibling_scan(p, i, len, visited) {
            Some(t) => {
                let m = choose|m: usize|
                    i + 1 <= m < len && t == #[trigger] p.push(m) && !visited.contains(t);
                assert(i <= m < len && t == p.push(m) && !visited.contains(t));
            },
            None => {
            },
        }
    } else if 0 <= i < len {
        let m = i as usize;
        assert(sibling_scan(p, i, len, visited) == Some(p.push(m)));
        assert(i <= m < len && p.push(m) == p.push(m) && !visited.contains(p.push(m)));
    }
}

/// A backward sibling scan yields the address of a child of `p` at or
/// before the start index, and that address was not visited.
proof fn lemma_sibling_scan_back_shape(p: Seq<usize>, i: int, visited: Set<Seq<usize>>)
    requires
        i < usize::MAX,
    ensures
        sibling_scan_back(p, i, visited) matches Some(t) ==> exists|m: usize|
            0 <= m <= i && t == #[trigger] p.push(m) && !visited.contains(t),
    decreases i + 1,
{
    if i >= 0 && visited.contains(p.push(i as usize)) {
        lemma_sibling_scan_back_shape(p, i - 1, visited);
        match sibling_scan_back(p, i, visited) {
            Some(t) => {
                let m = choose|m: usize|
                    0 <= m <= i - 1 && t == #[trigger] p.push(m) && !visited.contains(t);
                assert(0 <= m <= i && t == p.push(m) && !visited.contains(t));
            },
            None => {
            },
        }
    } else if i >= 0 {
        let m = i as usize;
        assert(sibling_scan_back(p, i, visited) == Some(p.push(m)));
        assert(0 <= m <= i && p.push(m) == p.push(m) && !visited.contains(p.push(m)));
    }
}

/// At an address whose every segment is the last among its siblings,
/// there is no next sibling at any level.
proof fn lemma_next_sibling_none(doc: DomNode, h: Seq<usize>, visited: Set<Seq<usize>>)
    requires
        valid_path(doc, h),
        h.len() > 0,
        forall|k: int|
            0 <= k < h.len() ==> h[k] as int + 1 == (#[trigger] node_at(
                doc,
                h.take(k),
            ))->Container_0.children@.len(),
    ensures
        next_sibling_target(doc, h, visited) is None,
    decreases h.len(),
{
    lemma_parent_of_valid(doc, h);
    let p = h.drop_last();
    assert(p =~= h.take(h.len() - 1));
    assert(h[h.len() - 1] as int + 1 == node_at(doc, p)->Container_0.children@.len());
    assert(sibling_scan(
        p,
        h.last() + 1,
        node_at(doc, p)->Container_0.children@.len() as int,
        visited,
    ) is None);
    if p.len() > 0 {
        assert forall|k: int| 0 <= k < p.len() implies p[k] as int + 1 == (#[trigger] node_at(
            doc,
            p.take(k),
        ))->Container_0.children@.len() by {
            assert(p.take(k) =~= h.take(k));
            assert(p[k] == h[k]);
        }
        lemma_next_sibling_none(doc, p, visited);
    }
}

/// Boundary termination, forward half: once the last position itself was
/// emitted, a forward step from it leads nowhere.
pub proof fn lemma_forward_from_last_ends(doc: DomNode, h: Seq<usize>, visited: Set<Seq<usize>>)
    requires
        is_last_position(doc, h),
    ensures
        fwd_step(doc, h, visited) is None,
{
    if h.len() > 0 {
        lemma_next_sibling_none(doc, h, visited);
    }
}

/// The next sibling (of an address or of the nearest ancestor that has
/// one) is the first valid address in document order after the address
/// that does not lie inside its subtree; when there is none, everything
/// after the address lies inside its subtree.
proof fn lemma_next_sibling_minimal(
    doc: DomNode,
    h: Seq<usize>,
    b: Seq<usize>,
    visited: Set<Seq<usize>>,
)
    requires
        valid_path(doc, h),
        h.len() > 0,
        h.len() <= b.len(),
        h == b.take(h.len() as int),
        forall|x: Seq<usize>| visited.contains(x) ==> !handle_lt(b, x),
    ensures
        match next_sibling_target(doc, h, visited) {
            Some(t) => valid_path(doc, t) && handle_lt(h, t) && !is_strict_prefix(h, t) && (forall|
                y: Seq<usize>,
            |
                valid_path(doc, y) && handle_lt(h, y) && !is_strict_prefix(h, y) ==> y == t
                    || handle_lt(t, y)),
            None => forall|y: Seq<usize>|
                valid_path(doc, y) && handle_lt(h, y) ==> is_strict_prefix(h, y),
        },
    decreases h.len(),
{
    lemma_parent_of_valid(doc, h);
    let p = h.drop_last();
    let plen = node_at(doc, p)->Container_0.children@.len();
    assert(node_at(doc, p)->Container_0.children.len() == plen);
    assert(h =~= p.push(h.last()));
    assert(forall|x: int| 0 <= x < h.len() ==> b.take(h.len() as int)[x] == b[x]);
    if h.last() + 1 < plen {
        let t = p.push((h.last() + 1) as usize);
        let k = h.len() - 1;
        assert(h.take(k) =~= p);
        assert(t.take(k) =~= p);
        assert(b.take(k) =~= p);
        assert(b[k] == h[k]);
        lemma_lt_first_diff(b, t, k);
        assert(!visited.contains(t));
        assert(sibling_scan(p, h.last() + 1, plen as int, visited) == Some(t));
        assert(next_sibling_target(doc, h, visited) == Some(t));
        lemma_node_at_child(doc, p, (h.last() + 1) as usize);
        lemma_lt_first_diff(h, t, k);
        assert forall|y: Seq<usize>|
            valid_path(doc, y) && handle_lt(h, y) && !is_strict_prefix(h, y) implies y == t
            || handle_lt(t, y) by {
            lemma_lt_inversion(h, y);
            let ky = choose|ky: int|
                0 <= ky < h.len() && ky < y.len() && h.take(ky) == y.take(ky) && h[ky] < y[ky];
            assert(forall|x: int| 0 <= x < ky ==> h[x] == h.take(ky)[x] && y[x] == y.take(ky)[x]);
            if ky < k {
                assert(t.take(ky) =~= y.take(ky));
                assert(t[ky] == h[ky]);
                lemma_lt_first_diff(t, y, ky);
            } else {
                assert(ky == k);
                assert(y[k] >= h[k] + 1);
                assert(t[k] == h[k] + 1);
                if y[k] == t[k] {
                    assert(y.take(k + 1) =~= t);
                    if y.len() == k + 1 {
                        assert(y =~= t);
                    } else {
                        assert(t == y.take(t.len() as int));
                        lemma_lt_extend(t, y);
                    }
                } else {
                    assert(t.take(k) =~= y.take(k));
                    lemma_lt_first_diff(t, y, k);
                }
            }
        }
    } else if p.len() > 0 {
        assert(sibling_scan(p, h.last() + 1, plen as int, visited) is None);
        assert(p =~= b.take(h.len() - 1)) by {
            assert(forall|x: int| 0 <= x < h.len() - 1 ==> p[x] == h[x]);
        }
        lemma_next_sibling_minimal(doc, p, b, visited);
        assert(next_sibling_target(doc, h, visited) == next_sibling_target(doc, p, visited));
        match next_sibling_target(doc, p, visited) {
            Some(t) => {
                lemma_lt_inversion(p, t);
                assert(!(p.len() < t.len() && p == t.take(p.len() as int)));
                let k = choose|k: int|
                    0 <= k < p.len() && k < t.len() && p.take(k) == t.take(k) && p[k] < t[k];
                assert(forall|x: int|
                    0 <= x < k ==> p[x] == p.take(k)[x] && t[x] == t.take(k)[x]);
                assert(h.take(k) =~= p.take(k));
                assert(h.take(k) =~= t.take(k));
                assert(h[k] == p[k]);
                lemma_lt_first_diff(h, t, k);
                assert(!is_strict_prefix(h, t)) by {
                    if is_strict_prefix(h, t) {
                        assert(t.take(h.len() as int)[k] == t[k]);
                    }
                }
                assert forall|y: Seq<usize>|
                    valid_path(doc, y) && handle_lt(h, y) && !is_strict_prefix(h, y) implies y
                    == t || handle_lt(t, y) by {
                    lemma_lt_inversion(h, y);
                    let ky = choose|ky: int|
                        0 <= ky < h.len() && ky < y.len() && h.take(ky) == y.take(ky) && h[ky]
                            < y[ky];
                    assert(forall|x: int|
                        0 <= x < ky ==> h[x] == h.take(ky)[x] && y[x] == y.take(ky)[x]);
                    if ky < p.len() {
                        assert(p.take(ky) =~= y.take(ky));
                        assert(p[ky] == h[ky]);
                        lemma_lt_first_diff(p, y, ky);
                        assert(!is_strict_prefix(p, y)) by {
                            if is_strict_prefix(p, y) {
                                assert(y.take(p.len() as int)[ky] == y[ky]);
                                assert(p[ky] == y[ky]);
                            }
                        }
                    } else {
                        assert(ky == p.len());
                        lemma_valid_prefix(doc, y, ky);
                        assert(y.take(ky) =~= p);
                        assert(y[ky] < plen);
                        assert(y[ky] >= h.last() + 1);
                        assert(false);
                    }
                }
            },
            None => {
                assert forall|y: Seq<usize>|
                    valid_path(doc, y) && handle_lt(h, y) implies is_strict_prefix(h, y) by {
                    lemma_lt_extend(p, h);
                    crate::handle::lemma_lt_trans(p, h, y);
                    assert(is_strict_prefix(p, y));
                    lemma_lt_inversion(h, y);
                    if !(h.len() < y.len() && h == y.take(h.len() as int)) {
                        let ky = choose|ky: int|
                            0 <= ky < h.len() && ky < y.len() && h.take(ky) == y.take(ky) && h[ky]
                                < y[ky];
                        if ky < p.len() {
                            assert(y.take(p.len() as int)[ky] == y[ky]);
                            assert(p[ky] == h[ky]);
                            assert(h[ky] == y[ky]);
                        } else {
                            assert(ky == p.len());
                            lemma_valid_prefix(doc, y, ky);
                            assert(y.take(ky) =~= p);
                            assert(y[ky] < plen);
                            assert(y[ky] >= h.last() + 1);
                        }
                        assert(false);
                    }
                }
            },
        }
    } else {
        assert(sibling_scan(p, h.last() + 1, plen as int, visited) is None);
        assert(h.len() == 1);
        assert forall|y: Seq<usize>|
            valid_path(doc, y) && handle_lt(h, y) implies is_strict_prefix(h, y) by {
            lemma_lt_inversion(h, y);
            if !(h.len() < y.len() && h == y.take(h.len() as int)) {
                let ky = choose|ky: int|
                    0 <= ky < h.len() && ky < y.len() && h.take(ky) == y.take(ky) && h[ky] < y[ky];
                assert(ky == 0);
                lemma_valid_prefix(doc, y, 0);
                assert(y.take(0) =~= p);
                assert(y[0] < plen);
                assert(y[0] >= h.last() + 1);
                assert(false);
            }
        }
    }
}

/// The forward step with nothing later than the standing address yet
/// visited — as in any run of forward-only pulls — lands on the first
/// valid address after it in document order, and lands nowhere exactly
/// at the document's last position: a forward-only walk visits every
/// address from its anchor to the end, in order, skipping none.
pub proof fn lemma_forward_step_is_successor(doc: DomNode, h: Seq<usize>, visited: Set<Seq<usize>>)
    requires
        valid_path(doc, h),
        forall|x: Seq<usize>| visited.contains(x) ==> !handle_lt(h, x),
    ensures
        match fwd_step(doc, h, visited) {
            Some(t) => valid_path(doc, t) && handle_lt(h, t) && (forall|y: Seq<usize>|
                valid_path(doc, y) && handle_lt(h, y) ==> y == t || handle_lt(t, y)),
            None => forall|y: Seq<usize>| valid_path(doc, y) ==> !handle_lt(h, y),
        },
{
    let n = node_at(doc, h);
    if n is Container && n->Container_0.children@.len() > 0 {
        assert(!visited.contains(h.push(0))) by {
            assert(h =~= h.push(0).take(h.len() as int));
            lemma_lt_extend(h, h.push(0));
        }
        let t = h.push(0);
        assert(fwd_step(doc, h, visited) == Some(t));
        lemma_node_at_child(doc, h, 0);
        assert(h =~= t.take(h.len() as int));
        lemma_lt_extend(h, t);
        assert forall|y: Seq<usize>|
            valid_path(doc, y) && handle_lt(h, y) implies y == t || handle_lt(t, y) by {
            lemma_lt_inversion(h, y);
            if h.len() < y.len() && h == y.take(h.len() as int) {
                let d = h.len() as int;
                assert(forall|x: int| 0 <= x < d ==> h[x] == y.take(d)[x] && y.take(d)[x] == y[x]);
                if y[d] == 0 {
                    assert(y.take(d + 1) =~= t);
                    if y.len() == d + 1 {
                        assert(y =~= t);
                    } else {
                        assert(t == y.take(t.len() as int));
                        lemma_lt_extend(t, y);
                    }
                } else {
                    assert(t.take(d) =~= y.take(d));
                    lemma_lt_first_diff(t, y, d);
                }
            } else {
                let ky = choose|ky: int|
                    0 <= ky < h.len() && ky < y.len() && h.take(ky) == y.take(ky) && h[ky]
                        < y[ky];
                assert(forall|x: int|
                    0 <= x < ky ==> h[x] == h.take(ky)[x] && y[x] == y.take(ky)[x]);
                assert(t.take(ky) =~= y.take(ky));
                assert(t[ky] == h[ky]);
                lemma_lt_first_diff(t, y, ky);
            }
        }
    } else {
        assert forall|y: Seq<usize>|
            valid_path(doc, y) && handle_lt(h, y) implies !is_strict_prefix(h, y) by {
            if is_strict_prefix(h, y) {
                lemma_valid_prefix(doc, y, h.len() as int);
                assert(y.take(h.len() as int) =~= h);
                assert(node_at(doc, h) is Container);
                assert(y[h.len() as int] < n->Container_0.children@.len());
            }
        }
        if h.len() > 0 {
            assert(h =~= h.take(h.len() as int));
            lemma_next_sibling_minimal(doc, h, h, visited);
        } else {
            assert forall|y: Seq<usize>|
                valid_path(doc, y) implies !handle_lt(h, y) by {
                if handle_lt(h, y) {
                    assert(y.len() > 0);
                    assert(h =~= y.take(0));
                    assert(is_strict_prefix(h, y));
                }
            }
        }
    }
}


/// A backward target is never the address stepped from: the previous
/// sibling differs in its last segment, an ancestor is shorter, and the
/// last child is longer.
pub proof fn lemma_prev_target_moves(h: Seq<usize>, visited: Set<Seq<usize>>)
    ensures
        prev_target(h, visited) matches Some(t) ==> t.len() <= h.len() && t != h,
    decreases h.len(),
{
    if h.len() > 0 {
        let p = h.drop_last();
        lemma_sibling_scan_back_shape(p, h.last() - 1, visited);
        match sibling_scan_back(p, h.last() - 1, visited) {
            Some(t) => {
                let m = choose|m: usize|
                    0 <= m <= h.last() - 1 && t == #[trigger] p.push(m) && !visited.contains(t);
                assert(t.last() == m);
                assert(t.last() != h.last());
                assert(t != h);
            },
            None => {
                lemma_prev_target_moves(p, visited);
            },
        }
    }
}

/// Backward progress: a backward step never lands on the address it
/// steps from, so a pull never re-emits the position it stands at.
pub proof fn lemma_backward_moves(doc: DomNode, h: Seq<usize>, visited: Set<Seq<usize>>)
    ensures
        bwd_step(doc, h, visited) matches Some(t) ==> t != h,
{
    lemma_prev_target_moves(h, visited);
    match bwd_step(doc, h, visited) {
        Some(t) => {
            if t.len() > h.len() {
                assert(t != h);
            }
        },
        None => {
        },
    }
}

/// The previous sibling or an unvisited ancestor lies strictly earlier
/// in document order.
pub proof fn lemma_prev_target_earlier(h: Seq<usize>, visited: Set<Seq<usize>>)
    ensures
        prev_target(h, visited) matches Some(t) ==> handle_lt(t, h),
    decreases h.len(),
{
    if h.len() > 0 {
        let p = h.drop_last();
        assert(p =~= h.take(h.len() - 1));
        lemma_sibling_scan_back_shape(p, h.last() - 1, visited);
        match sibling_scan_back(p, h.last() - 1, visited) {
            Some(t) => {
                let m = choose|m: usize|
                    0 <= m <= h.last() - 1 && t == #[trigger] p.push(m) && !visited.contains(t);
                assert(t.take(h.len() - 1) =~= p);
                assert(t[h.len() - 1] == m);
                lemma_lt_first_diff(t, h, h.len() - 1);
            },
            None => {
                if prev_target(h, visited) == Some(p) {
                    lemma_lt_extend(p, h);
                } else {
                    lemma_prev_target_earlier(p, visited);
                    match prev_target(h, visited) {
                        Some(t) => {
                            lemma_lt_extend(p, h);
                            lemma_lt_trans(t, p, h);
                        },
                        None => {
                        },
                    }
                }
            },
        }
    }
}

/// A backward step lands strictly earlier in document order, except for
/// the one documented dive: from an unvisited container it first goes
/// down to the container's own last child, inside its subtree.
pub proof fn lemma_backward_step_direction(doc: DomNode, h: Seq<usize>, visited: Set<Seq<usize>>)
    ensures
        bwd_step(doc, h, visited) matches Some(t) ==> handle_lt(t, h) || is_strict_prefix(h, t),
{
    lemma_prev_target_earlier(h, visited);
    lemma_prev_target_moves(h, visited);
    match bwd_step(doc, h, visited) {
        Some(t) => {
            if t.len() > h.len() {
                assert(h =~= t.take(h.len() as int));
                assert(is_strict_prefix(h, t));
            }
        },
        None => {
        },
    }
}

/// Forward progress: a forward step always lands strictly later in
/// document order. With the order's transitivity and asymmetry this
/// gives that a run of forward pulls never emits an address twice.
pub proof fn lemma_forward_moves_forward(doc: DomNode, h: Seq<usize>, visited: Set<Seq<usize>>)
    requires
        valid_path(doc, h),
    ensures
        fwd_step(doc, h, visited) matches Some(t) ==> handle_lt(h, t),
{
    match fwd_step(doc, h, visited) {
        Some(t) => {
            if t == h.push(0usize) {
                assert(h =~= h.push(0usize).take(h.len() as int));
                lemma_lt_extend(h, h.push(0usize));
            }
            if h.len() > 0 && next_sibling_target(doc, h, visited) == Some(t) && t != h.push(
                0usize,
            ) {
                lemma_next_sibling_shape(doc, h, visited);
            }
            assert(handle_lt(h, t));
        },
        None => {
        },
    }
}

/// The next sibling (of an address or of an ancestor) diverges from the
/// address at some level, carries a larger index there, and so comes
/// strictly later in document order.
proof fn lemma_next_sibling_shape(doc: DomNode, h: Seq<usize>, visited: Set<Seq<usize>>)
    requires
        valid_path(doc, h),
        h.len() > 0,
    ensures
        next_sibling_target(doc, h, visited) matches Some(t) ==> handle_lt(h, t) && (exists|
            k: int,
        |
            0 <= k < h.len() && k < t.len() && t.len() == k + 1 && h.take(k) == t.take(k) && h[k]
                < t[k]),
    decreases h.len(),
{
    lemma_parent_of_valid(doc, h);
    let p = h.drop_last();
    let parent = node_at(doc, p)->Container_0;
    let plen = parent.children@.len() as int;
    assert(parent.children.len() == parent.children@.len());
    match next_sibling_target(doc, h, visited) {
        Some(t) => {
            lemma_sibling_scan_shape(p, h.last() + 1, plen, visited);
            match sibling_scan(p, h.last() + 1, plen, visited) {
                Some(t0) => {
                    assert(t == t0);
                    let m = choose|m: usize|
                        h.last() + 1 <= m < plen && t == #[trigger] p.push(m) && !visited.contains(
                            t,
                        );
                    let k = h.len() - 1;
                    assert(h.take(k) =~= p);
                    assert(t.take(k) =~= p);
                    assert(t[k] == m);
                    assert(h[k] < t[k]);
                    lemma_lt_first_diff(h, t, k);
                },
                None => {
                    lemma_next_sibling_shape(doc, p, visited);
                    let k = choose|k: int|
                        0 <= k < p.len() && k < t.len() && t.len() == k + 1 && p.take(k) == t.take(
                            k,
                        ) && p[k] < t[k];
                    assert(p.take(k) =~= h.take(k));
                    assert(p[k] == h[k]);
                    assert(h.take(k) == t.take(k) && h[k] < t[k]);
                    lemma_lt_first_diff(h, t, k);
                },
            }
        },
        None => {
        },
    }
}

/// Every valid address's node appears in the preorder sequence: the walk
/// misses nothing.
pub proof fn lemma_preorder_complete(n: DomNode, path: Seq<usize>)
    requires
        valid_path(n, path),
    ensures
        exists|i: int| 0 <= i < preorder(n).len() && #[trigger] preorder(n)[i] == node_at(n, path),
    decreases n, 0int, 0int,
{
    if path.len() == 0 {
        assert(preorder(n)[0] == node_at(n, path));
    } else {
        let c = n->Container_0;
        lemma_preorder_from_complete(n, c, 0, path.first() as int, path.drop_first());
        let i = choose|i: int|
            0 <= i < preorder_from(c, 0).len() && #[trigger] preorder_from(c, 0)[i] == node_at(
                c.children@[path.first() as int],
                path.drop_first(),
            );
        assert(preorder(n)[i + 1] == preorder_from(c, 0)[i]);
        assert(preorder(n)[i + 1] == node_at(n, path));
    }
}

/// Helper for completeness, over the children's subtrees from `k` on.
proof fn lemma_preorder_from_complete(
    n: DomNode,
    c: ContainerNode,
    k: int,
    j: int,
    path: Seq<usize>,
)
    requires
        n == DomNode::Container(c),
        0 <= k <= j < c.children@.len(),
        valid_path(c.children@[j], path),
    ensures
        exists|i: int|
            0 <= i < preorder_from(c, k).len() && #[trigger] preorder_from(c, k)[i] == node_at(
                c.children@[j],
                path,
            ),
    decreases c, c.children@.len() - k, 1int,
{
    if k == j {
        lemma_preorder_complete(c.children@[j], path);
        let i = choose|i: int|
            0 <= i < preorder(c.children@[j]).len() && #[trigger] preorder(c.children@[j])[i]
                == node_at(c.children@[j], path);
        assert(preorder_from(c, k)[i] == preorder(c.children@[j])[i]);
        assert(preorder_from(c, k)[i] == node_at(c.children@[j], path));
    } else {
        lemma_preorder_from_complete(n, c, k + 1, j, path);
        let i = choose|i: int|
            0 <= i < preorder_from(c, k + 1).len() && #[trigger] preorder_from(c, k + 1)[i]
                == node_at(c.children@[j], path);
        let off = preorder(c.children@[k]).len() as int;
        assert(preorder_from(c, k)[i + off] == preorder_from(c, k + 1)[i]);
        assert(preorder_from(c, k)[i + off] == node_at(c.children@[j], path));
    }
}

/// How many document positions lie strictly after `h` in document order.
pub open spec fn later_count(doc: DomNode, h: Seq<usize>) -> nat {
    Set::new(
        |i: int| 0 <= i < preorder(doc).len() && handle_lt(h, preorder(doc)[i].handle_spec()),
    ).len()
}

/// Moving strictly later in document order strictly shrinks the count of
/// positions still ahead: the well-founded measure behind every
/// forward-only walk.
pub proof fn lemma_later_count_decreases(doc: DomNode, a: Seq<usize>, b: Seq<usize>)
    requires
        wf_node(doc),
        doc.handle_spec().len() == 0,
        valid_path(doc, b),
        handle_lt(a, b),
    ensures
        later_count(doc, b) < later_count(doc, a),
{
    let n = preorder(doc).len() as int;
    let sa = Set::new(
        |i: int| 0 <= i < preorder(doc).len() && handle_lt(a, preorder(doc)[i].handle_spec()),
    );
    let sb = Set::new(
        |i: int| 0 <= i < preorder(doc).len() && handle_lt(b, preorder(doc)[i].handle_spec()),
    );
    vstd::set_lib::lemma_int_range(0, n);
    assert(sa.subset_of(vstd::set_lib::set_int_range(0, n)));
    vstd::set_lib::lemma_len_subset(sa, vstd::set_lib::set_int_range(0, n));
    assert forall|i: int| sb.contains(i) implies sa.contains(i) by {
        lemma_lt_trans(a, b, preorder(doc)[i].handle_spec());
    }
    lemma_preorder_complete(doc, b);
    let ib = choose|i: int|
        0 <= i < preorder(doc).len() && #[trigger] preorder(doc)[i] == node_at(doc, b);
    lemma_node_at_props(doc, b);
    assert(doc.handle_spec() + b =~= b);
    assert(preorder(doc)[ib].handle_spec() == b);
    assert(sa.contains(ib));
    assert(!sb.contains(ib)) by {
        if handle_lt(b, b) {
            lemma_lt_asym(b, b);
        }
    }
    assert(sb.insert(ib).subset_of(sa));
    vstd::set_lib::lemma_len_subset(sb, sa);
    assert(sb.insert(ib).len() == sb.len() + 1);
    vstd::set_lib::lemma_len_subset(sb.insert(ib), sa);
}

} // verus!
