//! Addresses of nodes: paths of child indices from the document root.

use vstd::prelude::*;

verus! {

/// The address of a node in the document tree: the sequence of child
/// indices walked from the root to reach it. The root's address is empty.
pub struct DomHandle {
    path: Vec<usize>,
}

impl View for DomHandle {
    type V = Seq<usize>;

    closed spec fn view(&self) -> Seq<usize> {
        self.path@
    }
}

impl DomHandle {
    /// Build an address from a raw path of child indices.
    pub fn from_raw(path: Vec<usize>) -> (r: DomHandle)
        ensures
            r@ == path@,
    {
        DomHandle { path }
    }

    /// The address of the document root: the empty path.
    pub fn root() -> (r: DomHandle)
        ensures
            r@ == Seq::<usize>::empty(),
    {
        DomHandle { path: Vec::new() }
    }

    /// True for every address but the root's.
    pub fn has_parent(&self) -> (r: bool)
        ensures
            r == (self@.len() > 0),
    {
        self.path.len() > 0
    }

    /// True only for the root's address.
    pub fn is_root(&self) -> (r: bool)
        ensures
            r == (self@.len() == 0),
    {
        self.path.len() == 0
    }

    /// The parent's address: this address without its last segment.
    pub fn parent_handle(&self) -> (r: DomHandle)
        requires
            self@.len() > 0,
        ensures
            r@ == self@.drop_last(),
    {
        let mut path: Vec<usize> = Vec::new();
        let mut i: usize = 0;
        while i < self.path.len() - 1
            invariant
                self@.len() > 0,
                i <= self@.len() - 1,
                path@ == self@.take(i as int),
            decreases self@.len() - 1 - i,
        {
            path.push(self.path[i]);
            i += 1;
        }
        proof {
            assert(self@.take(self@.len() - 1) =~= self@.drop_last());
        }
        DomHandle { path }
    }

    /// This node's position among its parent's children: the last segment.
    pub fn index_in_parent(&self) -> (r: usize)
        requires
            self@.len() > 0,
        ensures
            r == self@.last(),
    {
        self.path[self.path.len() - 1]
    }

    /// The address of this node's `i`-th child.
    pub fn child_handle(&self, i: usize) -> (r: DomHandle)
        ensures
            r@ == self@.push(i),
    {
        let mut path = self.clone_path();
        path.push(i);
        DomHandle { path }
    }

    /// The raw path of child indices.
    pub fn raw_path(&self) -> (r: &Vec<usize>)
        ensures
            r@ == self@,
    {
        &self.path
    }

    /// A copy of the raw path.
    fn clone_path(&self) -> (r: Vec<usize>)
        ensures
            r@ == self@,
    {
        let mut path: Vec<usize> = Vec::new();
        let mut i: usize = 0;
        while i < self.path.len()
            invariant
                i <= self@.len(),
                path@ == self@.take(i as int),
            decreases self@.len() - i,
        {
            path.push(self.path[i]);
            i += 1;
        }
        proof {
            assert(self@.take(self@.len() as int) =~= self@);
        }
        path
    }

    /// Whether two addresses are the same path.
    pub fn same_as(&self, other: &DomHandle) -> (r: bool)
        ensures
            r == (self@ == other@),
    {
        if self.path.len() != other.path.len() {
            proof {
                assert(self@ != other@);
            }
            return false;
        }
        let mut i: usize = 0;
        while i < self.path.len()
            invariant
                self@.len() == other@.len(),
                i <= self@.len(),
                forall|j: int| 0 <= j < i ==> self@[j] == other@[j],
            decreases self@.len() - i,
        {
            if self.path[i] != other.path[i] {
                proof {
                    assert(self@[i as int] != other@[i as int]);
                }
                return false;
            }
            i += 1;
        }
        proof {
            assert(self@ =~= other@);
        }
        true
    }
}

/// Document order on addresses: `a` comes strictly before `b` when `a`
/// is a strict prefix of `b` (an ancestor precedes its descendants) or
/// when, at the first differing segment, `a`'s index is the smaller.
pub open spec fn handle_lt(a: Seq<usize>, b: Seq<usize>) -> bool
    decreases a.len(),
{
    if a.len() == 0 {
        b.len() > 0
    } else if b.len() == 0 {
        false
    } else if a.first() == b.first() {
        handle_lt(a.drop_first(), b.drop_first())
    } else {
        a.first() < b.first()
    }
}

/// An address comes before every extension of itself.
pub proof fn lemma_lt_extend(a: Seq<usize>, b: Seq<usize>)
    requires
        a.len() < b.len(),
        a == b.take(a.len() as int),
    ensures
        handle_lt(a, b),
    decreases a.len(),
{
    if a.len() > 0 {
        assert(a.first() == b.first());
        assert(a.drop_first() =~= b.drop_first().take(a.len() - 1));
        lemma_lt_extend(a.drop_first(), b.drop_first());
    }
}

/// An address comes before every address that agrees with it up to some
/// position and is larger there.
pub proof fn lemma_lt_first_diff(a: Seq<usize>, b: Seq<usize>, k: int)
    requires
        0 <= k < a.len(),
        k < b.len(),
        a.take(k) == b.take(k),
        a[k] < b[k],
    ensures
        handle_lt(a, b),
    decreases k,
{
    if k == 0 {
        assert(a.first() < b.first());
    } else {
        assert(a.take(k)[0] == a[0]);
        assert(b.take(k)[0] == b[0]);
        assert(a.first() == b.first());
        assert(a.drop_first().take(k - 1) =~= a.take(k).drop_first());
        assert(b.drop_first().take(k - 1) =~= b.take(k).drop_first());
        assert(a.drop_first()[k - 1] == a[k]);
        lemma_lt_first_diff(a.drop_first(), b.drop_first(), k - 1);
    }
}

/// What the order means, spelled out: `a` before `b` is exactly `a` a
/// strict prefix of `b`, or a divergence at some position where `a`'s
/// segment is the smaller.
pub proof fn lemma_lt_inversion(a: Seq<usize>, b: Seq<usize>)
    requires
        handle_lt(a, b),
    ensures
        (a.len() < b.len() && a == b.take(a.len() as int)) || (exists|k: int|
            0 <= k < a.len() && k < b.len() && a.take(k) == b.take(k) && a[k] < b[k]),
    decreases a.len(),
{
    if a.len() == 0 {
        assert(a =~= b.take(0));
    } else if a.first() == b.first() {
        lemma_lt_inversion(a.drop_first(), b.drop_first());
        let ad = a.drop_first();
        let bd = b.drop_first();
        if ad.len() < bd.len() && ad == bd.take(ad.len() as int) {
            assert(a =~= b.take(a.len() as int)) by {
                assert(forall|x: int|
                    0 <= x < ad.len() ==> ad[x] == bd.take(ad.len() as int)[x] && bd.take(
                        ad.len() as int,
                    )[x] == bd[x]);
                assert(forall|x: int| 1 <= x < a.len() ==> a[x] == ad[x - 1] && b[x] == bd[x - 1]);
            }
        } else {
            let k = choose|k: int| 0 <= k < ad.len() && k < bd.len() && ad.take(k) == bd.take(k)
                && ad[k] < bd[k];
            assert(a.take(k + 1) =~= b.take(k + 1)) by {
                assert(forall|x: int|
                    0 <= x < k ==> ad[x] == ad.take(k)[x] && bd[x] == bd.take(k)[x]);
                assert(forall|x: int| 1 <= x < k + 1 ==> a[x] == ad[x - 1] && b[x] == bd[x - 1]);
            }
            assert(a[k + 1] == ad[k] && b[k + 1] == bd[k]);
            assert(0 <= k + 1 < a.len() && k + 1 < b.len() && a.take(k + 1) == b.take(k + 1)
                && a[k + 1] < b[k + 1]);
        }
    } else {
        assert(a.take(0) =~= b.take(0));
        assert(0 <= 0 < a.len() && 0 < b.len() && a.take(0) == b.take(0) && a[0] < b[0]);
    }
}

/// The order is strict: it never holds both ways, and never of an
/// address and itself.
pub proof fn lemma_lt_asym(a: Seq<usize>, b: Seq<usize>)
    requires
        handle_lt(a, b),
    ensures
        !handle_lt(b, a),
        a != b,
    decreases a.len(),
{
    if a.len() > 0 && b.len() > 0 && a.first() == b.first() {
        lemma_lt_asym(a.drop_first(), b.drop_first());
        assert(a != b) by {
            if a == b {
                assert(a.drop_first() =~= b.drop_first());
            }
        }
    }
}

/// The order is transitive.
pub proof fn lemma_lt_trans(a: Seq<usize>, b: Seq<usize>, c: Seq<usize>)
    requires
        handle_lt(a, b),
        handle_lt(b, c),
    ensures
        handle_lt(a, c),
    decreases a.len(),
{
    if a.len() > 0 && b.len() > 0 && c.len() > 0 && a.first() == b.first() && b.first()
        == c.first() {
        lemma_lt_trans(a.drop_first(), b.drop_first(), c.drop_first());
    }
}

impl Clone for DomHandle {
    fn clone(&self) -> (r: Self)
        ensures
            r@ == self@,
    {
        DomHandle { path: self.clone_path() }
    }
}

} // verus!
