//! A segment tree with lazy propagation over a join-semilattice.
//!
//! The tree stores aggregates for the positions `1 ..= n` in an implicit
//! binary tree laid out in a flat array of size `4 * n`: node `k` covers a
//! sub-range `[s, e]`, its children `2k` and `2k + 1` cover the two halves
//! split at `(s + e) / 2`, and the root node `1` covers `[1, n]`.  `cell[k]`
//! holds the aggregate of node `k`'s sub-range and `lazy[k]` a pending value
//! that still has to be forwarded to the children; a pending value is
//! resolved ("pushed down") before any operation reads past the node.

use vstd::prelude::*;

use crate::lattice::fold_vals;
use crate::lattice::lemma_fold_concat;
use crate::lattice::lemma_fold_map_join;
use crate::lattice::lemma_fold_singleton;
use crate::lattice::lemma_map_bot;
use crate::lattice::lemma_map_concat;
use crate::lattice::lemma_map_join_twice;
use crate::lattice::Semilattice;

verus! {

/// `2^d`.
pub open spec fn pow2(d: nat) -> nat
    decreases d,
{
    if d == 0 {
        1
    } else {
        2 * pow2((d - 1) as nat)
    }
}

pub proof fn lemma_pow2_pos(d: nat)
    ensures
        pow2(d) >= 1,
    decreases d,
{
    if d > 0 {
        lemma_pow2_pos((d - 1) as nat);
    }
}

/// `j` lies in the implicit subtree rooted at `k` (both 1-based heap
/// indices): `k` itself, or a node whose ancestor chain reaches `k`.
pub open spec fn in_subtree(k: int, j: int) -> bool
    decreases j,
{
    j >= 1 && k >= 1 && (j == k || (j > k && in_subtree(k, j / 2)))
}

pub proof fn lemma_subtree_le(k: int, j: int)
    requires
        in_subtree(k, j),
    ensures
        k <= j,
    decreases j,
{
}

pub proof fn lemma_subtree_self(k: int)
    requires
        k >= 1,
    ensures
        in_subtree(k, k),
        in_subtree(k, 2 * k),
        in_subtree(k, 2 * k + 1),
{
    assert(in_subtree(k, k));
    assert((2 * k) / 2 == k);
    assert((2 * k + 1) / 2 == k);
    assert(in_subtree(k, 2 * k));
    assert(in_subtree(k, 2 * k + 1));
}

/// Subtree membership is transitive.
pub proof fn lemma_subtree_trans(k: int, j: int, i: int)
    requires
        in_subtree(k, j),
        in_subtree(j, i),
    ensures
        in_subtree(k, i),
    decreases i,
{
    if i == j {
    } else {
        lemma_subtree_trans(k, j, i / 2);
        lemma_subtree_le(k, j);
        lemma_subtree_le(j, i);
    }
}

/// The subtrees of the two children of `k` are disjoint.
pub proof fn lemma_subtree_disjoint(k: int, j: int)
    requires
        k >= 1,
    ensures
        !(in_subtree(2 * k, j) && in_subtree(2 * k + 1, j)),
    decreases j,
{
    if in_subtree(2 * k, j) && in_subtree(2 * k + 1, j) {
        if j == 2 * k {
            lemma_subtree_le(2 * k + 1, j);
        } else if j == 2 * k + 1 {
            assert(in_subtree(2 * k, j / 2));
            assert(j / 2 == k);
            lemma_subtree_le(2 * k, k);
        } else {
            lemma_subtree_le(2 * k, j);
            lemma_subtree_le(2 * k + 1, j);
            lemma_subtree_disjoint(k, j / 2);
        }
    }
}

/// The per-position values represented by the subtree at node `k` covering
/// `[s, e]`: at a leaf, the cell joined with its pending value; at an inner
/// node, the children's values with the node's own pending value joined into
/// every one of them.
pub open spec fn node_vals<T: Semilattice>(
    cell: Seq<T>,
    lazy: Seq<T>,
    k: int,
    s: int,
    e: int,
) -> Seq<T>
    decreases e - s,
{
    if s >= e {
        seq![T::join_spec(cell[k], lazy[k])]
    } else {
        let mid = (s + e) / 2;
        (node_vals(cell, lazy, 2 * k, s, mid) + node_vals(cell, lazy, 2 * k + 1, mid + 1, e))
            .map_values(|x: T| T::join_spec(x, lazy[k]))
    }
}

pub proof fn lemma_node_vals_len<T: Semilattice>(cell: Seq<T>, lazy: Seq<T>, k: int, s: int, e: int)
    requires
        s <= e,
    ensures
        node_vals(cell, lazy, k, s, e).len() == e - s + 1,
    decreases e - s,
{
    if s < e {
        let mid = (s + e) / 2;
        lemma_node_vals_len(cell, lazy, 2 * k, s, mid);
        lemma_node_vals_len(cell, lazy, 2 * k + 1, mid + 1, e);
    }
}

/// Structural well-formedness of the subtree at `k` covering `[s, e]`: every
/// node index is in bounds, and every inner node's cell joined with its
/// pending value equals the fold of the values its subtree represents.
pub open spec fn wf_node<T: Semilattice>(
    cell: Seq<T>,
    lazy: Seq<T>,
    k: int,
    s: int,
    e: int,
) -> bool
    decreases e - s,
{
    &&& 1 <= k < cell.len()
    &&& k < lazy.len()
    &&& (s < e ==> {
        let mid = (s + e) / 2;
        &&& T::join_spec(cell[k], lazy[k]) == fold_vals(node_vals(cell, lazy, k, s, e))
        &&& wf_node(cell, lazy, 2 * k, s, mid)
        &&& wf_node(cell, lazy, 2 * k + 1, mid + 1, e)
    })
}

/// `node_vals` and `wf_node` only depend on the entries inside the subtree
/// of `k`: two array pairs that agree there represent the same values.
pub proof fn lemma_node_frame<T: Semilattice>(
    cell1: Seq<T>,
    lazy1: Seq<T>,
    cell2: Seq<T>,
    lazy2: Seq<T>,
    k: int,
    s: int,
    e: int,
)
    requires
        wf_node::<T>(cell1, lazy1, k, s, e),
        cell1.len() == lazy1.len(),
        cell2.len() == cell1.len(),
        lazy2.len() == lazy1.len(),
        forall|j: int|
            #[trigger] in_subtree(k, j) && 0 <= j < cell1.len() ==> cell2[j] == cell1[j] && lazy2[j]
                == lazy1[j],
    ensures
        node_vals(cell2, lazy2, k, s, e) == node_vals(cell1, lazy1, k, s, e),
        wf_node::<T>(cell2, lazy2, k, s, e),
    decreases e - s,
{
    lemma_subtree_self(k);
    if s < e {
        let mid = (s + e) / 2;
        assert forall|j: int| #[trigger]
            in_subtree(2 * k, j) && 0 <= j < cell1.len() implies cell2[j] == cell1[j] && lazy2[j]
            == lazy1[j] by {
            lemma_subtree_trans(k, 2 * k, j);
        }
        assert forall|j: int| #[trigger]
            in_subtree(2 * k + 1, j) && 0 <= j < cell1.len() implies cell2[j] == cell1[j]
            && lazy2[j] == lazy1[j] by {
            lemma_subtree_trans(k, 2 * k + 1, j);
        }
        lemma_node_frame(cell1, lazy1, cell2, lazy2, 2 * k, s, mid);
        lemma_node_frame(cell1, lazy1, cell2, lazy2, 2 * k + 1, mid + 1, e);
    }
}

/// Joining `v` into the pending value at the root of a subtree joins `v`
/// into every value the subtree represents, and keeps it well-formed.
pub proof fn lemma_root_lazy_join<T: Semilattice>(
    cell: Seq<T>,
    lazy: Seq<T>,
    k: int,
    s: int,
    e: int,
    v: T,
)
    requires
        wf_node::<T>(cell, lazy, k, s, e),
        cell.len() == lazy.len(),
        s <= e,
    ensures
        node_vals(cell, lazy.update(k, T::join_spec(lazy[k], v)), k, s, e) == node_vals(
            cell,
            lazy,
            k,
            s,
            e,
        ).map_values(|x: T| T::join_spec(x, v)),
        wf_node::<T>(cell, lazy.update(k, T::join_spec(lazy[k], v)), k, s, e),
{
    let lazy2 = lazy.update(k, T::join_spec(lazy[k], v));
    if s >= e {
        assert(node_vals(cell, lazy2, k, s, e) =~= node_vals(cell, lazy, k, s, e).map_values(
            |x: T| T::join_spec(x, v),
        )) by {
            T::lemma_assoc(cell[k], lazy[k], v);
        }
    } else {
        let mid = (s + e) / 2;
        // the children's entries are untouched: k is in neither child subtree
        assert forall|j: int| #[trigger]
            in_subtree(2 * k, j) && 0 <= j < cell.len() implies cell[j] == cell[j] && lazy2[j]
            == lazy[j] by {
            if j == k {
                lemma_subtree_le(2 * k, j);
            }
        }
        assert forall|j: int| #[trigger]
            in_subtree(2 * k + 1, j) && 0 <= j < cell.len() implies cell[j] == cell[j] && lazy2[j]
            == lazy[j] by {
            if j == k {
                lemma_subtree_le(2 * k + 1, j);
            }
        }
        lemma_node_frame(cell, lazy, cell, lazy2, 2 * k, s, mid);
        lemma_node_frame(cell, lazy, cell, lazy2, 2 * k + 1, mid + 1, e);
        let children = node_vals(cell, lazy, 2 * k, s, mid) + node_vals(
            cell,
            lazy,
            2 * k + 1,
            mid + 1,
            e,
        );
        lemma_map_join_twice(children, lazy[k], v);
        assert(node_vals(cell, lazy2, k, s, e) == children.map_values(
            |x: T| T::join_spec(x, T::join_spec(lazy[k], v)),
        ));
        // the fold clause at the root
        lemma_node_vals_len(cell, lazy, k, s, e);
        lemma_fold_map_join(node_vals(cell, lazy, k, s, e), v);
        T::lemma_assoc(cell[k], lazy[k], v);
    }
}

/// The arithmetic invariant tying a node index `k` to the sub-range it
/// covers, for a tree over `[1, n]`: `k` lies at depth `d`, and a sub-range
/// of more than one position at depth `d` has `(e - s) * 2^d < n`.  It
/// bounds every reachable index below `4 * n`.
pub open spec fn depth_ok(d: nat, k: int, s: int, e: int, n: int) -> bool {
    &&& pow2(d) <= k < pow2(d + 1)
    &&& (s < e ==> (e - s) * pow2(d) < n)
    &&& (s >= e ==> pow2(d) < 2 * n)
}

pub proof fn lemma_depth_bounds(d: nat, k: int, s: int, e: int, n: int)
    requires
        depth_ok(d, k, s, e, n),
        s <= e,
    ensures
        k < 4 * n,
        s < e ==> k < 2 * n,
{
    lemma_pow2_pos(d);
    assert(pow2(d + 1) == 2 * pow2(d));
    if s < e {
        assert(pow2(d) <= (e - s) * pow2(d)) by (nonlinear_arith)
            requires
                e - s >= 1,
                pow2(d) >= 1,
        ;
    }
}

pub proof fn lemma_depth_children(d: nat, k: int, s: int, e: int, n: int)
    requires
        depth_ok(d, k, s, e, n),
        1 <= s < e,
        e <= n,
    ensures
        depth_ok(d + 1, 2 * k, s, (s + e) / 2, n),
        depth_ok(d + 1, 2 * k + 1, (s + e) / 2 + 1, e, n),
{
    let mid = (s + e) / 2;
    lemma_pow2_pos(d);
    assert(pow2(d + 1) == 2 * pow2(d));
    assert(pow2(d + 2) == 2 * pow2(d + 1));
    assert(2 * mid <= s + e && s + e < 2 * mid + 2);
    assert(s <= mid < e);
    if s < mid {
        assert((mid - s) * pow2(d + 1) <= (e - s) * pow2(d)) by (nonlinear_arith)
            requires
                pow2(d + 1) == 2 * pow2(d),
                2 * (mid - s) <= e - s,
                pow2(d) >= 1,
        ;
    } else {
        assert(1 * pow2(d) <= (e - s) * pow2(d)) by (nonlinear_arith)
            requires
                e - s >= 1,
                pow2(d) >= 1,
        ;
    }
    if mid + 1 < e {
        assert((e - mid - 1) * pow2(d + 1) <= (e - s) * pow2(d)) by (nonlinear_arith)
            requires
                pow2(d + 1) == 2 * pow2(d),
                2 * (e - mid - 1) <= e - s,
                pow2(d) >= 1,
        ;
    } else {
        assert(1 * pow2(d) <= (e - s) * pow2(d)) by (nonlinear_arith)
            requires
                e - s >= 1,
                pow2(d) >= 1,
        ;
    }
}

/// `vals` (covering positions `s ..`) after joining `v` into every position
/// that lies in `[l, r]`.
pub open spec fn apply_range<T: Semilattice>(vals: Seq<T>, s: int, l: int, r: int, v: T) -> Seq<
    T,
> {
    Seq::new(
        vals.len(),
        |i: int|
            if l <= s + i && s + i <= r {
                T::join_spec(vals[i], v)
            } else {
                vals[i]
            },
    )
}

/// The portion of `vals` (covering positions `s ..`) at positions in
/// `[l, r]`, empty when the ranges do not overlap.
pub open spec fn clip<T: Semilattice>(vals: Seq<T>, s: int, l: int, r: int) -> Seq<T> {
    let lo0 = if l - s > 0 {
        l - s
    } else {
        0
    };
    let lo = if lo0 > vals.len() {
        vals.len() as int
    } else {
        lo0
    };
    let hi0 = if r - s + 1 < vals.len() {
        r - s + 1
    } else {
        vals.len() as int
    };
    let hi = if hi0 < lo {
        lo
    } else {
        hi0
    };
    vals.subrange(lo, hi)
}

/// The fold of the values of `vals` at positions `[l, r]`, positions being
/// counted from 1; an empty or non-overlapping range folds to bottom.
pub open spec fn range_fold<T: Semilattice>(vals: Seq<T>, l: int, r: int) -> T {
    fold_vals(clip(vals, 1, l, r))
}

pub proof fn lemma_apply_concat<T: Semilattice>(a: Seq<T>, b: Seq<T>, s: int, l: int, r: int, v: T)
    ensures
        apply_range(a + b, s, l, r, v) == apply_range(a, s, l, r, v) + apply_range(
            b,
            s + a.len(),
            l,
            r,
            v,
        ),
{
    assert(apply_range(a + b, s, l, r, v) =~= apply_range(a, s, l, r, v) + apply_range(
        b,
        s + a.len(),
        l,
        r,
        v,
    ));
}

pub proof fn lemma_apply_outside<T: Semilattice>(vals: Seq<T>, s: int, l: int, r: int, v: T)
    requires
        r < s || l > s + vals.len() - 1,
    ensures
        apply_range(vals, s, l, r, v) == vals,
{
    assert(apply_range(vals, s, l, r, v) =~= vals);
}

pub proof fn lemma_apply_covered<T: Semilattice>(vals: Seq<T>, s: int, l: int, r: int, v: T)
    requires
        l <= s,
        s + vals.len() - 1 <= r,
    ensures
        apply_range(vals, s, l, r, v) == vals.map_values(|x: T| T::join_spec(x, v)),
{
    assert(apply_range(vals, s, l, r, v) =~= vals.map_values(|x: T| T::join_spec(x, v)));
}

pub proof fn lemma_clip_concat<T: Semilattice>(a: Seq<T>, b: Seq<T>, s: int, l: int, r: int)
    ensures
        clip(a + b, s, l, r) == clip(a, s, l, r) + clip(b, s + a.len(), l, r),
{
    assert(clip(a + b, s, l, r) =~= clip(a, s, l, r) + clip(b, s + a.len(), l, r));
}

pub proof fn lemma_clip_outside<T: Semilattice>(vals: Seq<T>, s: int, l: int, r: int)
    requires
        r < s || l > s + vals.len() - 1,
    ensures
        clip(vals, s, l, r) == Seq::<T>::empty(),
{
    assert(clip(vals, s, l, r) =~= Seq::<T>::empty());
}

pub proof fn lemma_clip_covered<T: Semilattice>(vals: Seq<T>, s: int, l: int, r: int)
    requires
        l <= s,
        s + vals.len() - 1 <= r,
    ensures
        clip(vals, s, l, r) == vals,
{
    assert(clip(vals, s, l, r) =~= vals);
}

/// The root of a tree over `[1, n]` satisfies the depth invariant.
pub proof fn lemma_depth_root(n: int)
    requires
        n >= 1,
    ensures
        depth_ok(0, 1, 1, n, n),
{
    assert(pow2(0) == 1);
    assert(pow2(1) == 2);
    assert((n - 1) * 1 == n - 1);
}

/// A subtree whose entries are all bottom is well-formed and represents
/// all-bottom values.
pub proof fn lemma_all_bot<T: Semilattice>(
    cell: Seq<T>,
    lazy: Seq<T>,
    d: nat,
    k: int,
    s: int,
    e: int,
    n: int,
)
    requires
        cell.len() == 4 * n,
        lazy.len() == 4 * n,
        forall|j: int| 0 <= j < cell.len() ==> cell[j] == T::bot_spec() && lazy[j] == T::bot_spec(),
        1 <= s <= e <= n,
        depth_ok(d, k, s, e, n),
    ensures
        wf_node::<T>(cell, lazy, k, s, e),
        node_vals(cell, lazy, k, s, e) == Seq::new((e - s + 1) as nat, |i: int| T::bot_spec()),
    decreases e - s,
{
    lemma_depth_bounds(d, k, s, e, n);
    lemma_pow2_pos(d);
    if s >= e {
        T::lemma_bot(T::bot_spec());
        assert(node_vals(cell, lazy, k, s, e) =~= Seq::new(
            (e - s + 1) as nat,
            |i: int| T::bot_spec(),
        ));
    } else {
        let mid = (s + e) / 2;
        lemma_depth_children(d, k, s, e, n);
        lemma_all_bot::<T>(cell, lazy, d + 1, 2 * k, s, mid, n);
        lemma_all_bot::<T>(cell, lazy, d + 1, 2 * k + 1, mid + 1, e, n);
        let children = node_vals(cell, lazy, 2 * k, s, mid) + node_vals(
            cell,
            lazy,
            2 * k + 1,
            mid + 1,
            e,
        );
        lemma_map_bot(children);
        assert(node_vals(cell, lazy, k, s, e) =~= Seq::new(
            (e - s + 1) as nat,
            |i: int| T::bot_spec(),
        ));
        crate::lattice::lemma_fold_bots::<T>((e - s + 1) as nat);
        T::lemma_bot(T::bot_spec());
    }
}

/// A segment tree over `[1, n]` with lazy propagation, storing aggregates
/// of a join-semilattice `T`.
pub struct SegTree<T: Semilattice> {
    n: usize,
    default: T,
    cell: Vec<T>,
    lazy: Vec<T>,
}

impl<T: Semilattice> View for SegTree<T> {
    type V = Seq<T>;

    /// The per-position aggregates at positions `1 ..= n`, as a sequence
    /// indexed from 0.
    closed spec fn view(&self) -> Seq<T> {
        node_vals(self.cell@, self.lazy@, 1, 1, self.n as int)
    }
}

impl<T: Semilattice> SegTree<T> {
    /// The backing arrays have the right sizes and the sentinel is bottom.
    spec fn arrays_ok(self) -> bool {
        &&& self.n >= 1
        &&& self.default == T::bot_spec()
        &&& self.cell@.len() == 4 * self.n
        &&& self.lazy@.len() == 4 * self.n
    }

    /// The tree invariant.
    pub closed spec fn wf(self) -> bool {
        &&& self.arrays_ok()
        &&& wf_node::<T>(self.cell@, self.lazy@, 1, 1, self.n as int)
        &&& self@.len() == self.n
    }

    /// Resolves the pending value of node `k`: joins it into the cell,
    /// forwards it to the children's pending slots, and resets it to the
    /// sentinel.  The values the subtree represents are unchanged.
    fn push(&mut self, k: usize, Ghost(s): Ghost<int>, Ghost(e): Ghost<int>)
        requires
            old(self).arrays_ok(),
            wf_node::<T>(old(self).cell@, old(self).lazy@, k as int, s, e),
            1 <= s <= e,
        ensures
            final(self).arrays_ok(),
            final(self).n == old(self).n,
            final(self).default == old(self).default,
            wf_node::<T>(final(self).cell@, final(self).lazy@, k as int, s, e),
            node_vals(final(self).cell@, final(self).lazy@, k as int, s, e) == node_vals(
                old(self).cell@,
                old(self).lazy@,
                k as int,
                s,
                e,
            ),
            final(self).lazy@[k as int] == T::bot_spec(),
            final(self).cell@[k as int] == fold_vals(
                node_vals(old(self).cell@, old(self).lazy@, k as int, s, e),
            ),
            forall|j: int|
                0 <= j < final(self).cell@.len() && j != k ==> final(self).cell@[j] == old(
                    self,
                ).cell@[j],
            forall|j: int|
                0 <= j < final(self).lazy@.len() && j != k && j != 2 * (k as int) && j != 2 * (
                k as int) + 1 ==> final(self).lazy@[j] == old(self).lazy@[j],
    {
        let ghost cell0 = self.cell@;
        let ghost lazy0 = self.lazy@;
        let ghost ki = k as int;
        let ghost ck = cell0[ki];
        let ghost lk = lazy0[ki];
        let c = T::join(self.cell[k], self.lazy[k]);
        self.cell.set(k, c);
        if k < self.lazy.len() / 2 {
            let l1 = T::join(self.lazy[2 * k], self.lazy[k]);
            self.lazy.set(2 * k, l1);
            let l2 = T::join(self.lazy[2 * k + 1], self.lazy[k]);
            self.lazy.set(2 * k + 1, l2);
        }
        let b = self.default;
        self.lazy.set(k, b);
        proof {
            T::lemma_bot(T::join_spec(ck, lk));
            if s < e {
                let mid = (s + e) / 2;
                // the children are real nodes, so the forwarding branch ran
                assert(wf_node::<T>(cell0, lazy0, ki, s, e));
                assert(wf_node::<T>(cell0, lazy0, 2 * ki, s, mid) && wf_node::<T>(
                    cell0,
                    lazy0,
                    2 * ki + 1,
                    mid + 1,
                    e,
                ));
                assert(2 * ki < cell0.len() && 2 * ki + 1 < cell0.len());
                assert(ki < lazy0.len() / 2);
                assert(!in_subtree(2 * ki, 2 * ki + 1)) by {
                    assert((2 * ki + 1) / 2 == ki);
                    if in_subtree(2 * ki, 2 * ki + 1) {
                        lemma_subtree_le(2 * ki, ki);
                    }
                }
                assert(!in_subtree(2 * ki + 1, 2 * ki));
                let lazy_a = lazy0.update(2 * ki, T::join_spec(lazy0[2 * ki], lk));
                let lazy_b = lazy_a.update(2 * ki + 1, T::join_spec(lazy0[2 * ki + 1], lk));
                assert(self.lazy@ =~= lazy_b.update(ki, T::bot_spec()));
                let nv_l = node_vals(cell0, lazy0, 2 * ki, s, mid);
                let nv_r = node_vals(cell0, lazy0, 2 * ki + 1, mid + 1, e);
                // step a: merge the pending value into the left child
                lemma_root_lazy_join(cell0, lazy0, 2 * ki, s, mid, lk);
                // step b: merge it into the right child; the left subtree is
                // untouched because 2k is outside it, and conversely
                assert forall|j: int| #[trigger]
                    in_subtree(2 * ki + 1, j) && 0 <= j < cell0.len() implies cell0[j] == cell0[j]
                    && lazy_a[j] == lazy0[j] by {
                    if j == 2 * ki {
                        lemma_subtree_le(2 * ki + 1, j);
                    }
                }
                lemma_node_frame(cell0, lazy0, cell0, lazy_a, 2 * ki + 1, mid + 1, e);
                lemma_root_lazy_join(cell0, lazy_a, 2 * ki + 1, mid + 1, e, lk);
                assert forall|j: int| #[trigger]
                    in_subtree(2 * ki, j) && 0 <= j < cell0.len() implies cell0[j] == cell0[j]
                    && lazy_b[j] == lazy_a[j] by {}
                lemma_node_frame(cell0, lazy_a, cell0, lazy_b, 2 * ki, s, mid);
                // step c: clearing slot k and writing cell k leaves both
                // child subtrees untouched
                assert forall|j: int| #[trigger]
                    in_subtree(2 * ki, j) && 0 <= j < cell0.len() implies self.cell@[j] == cell0[j]
                    && self.lazy@[j] == lazy_b[j] by {
                    if j == ki {
                        lemma_subtree_le(2 * ki, j);
                    }
                }
                assert forall|j: int| #[trigger]
                    in_subtree(2 * ki + 1, j) && 0 <= j < cell0.len() implies self.cell@[j]
                    == cell0[j] && self.lazy@[j] == lazy_b[j] by {
                    if j == ki {
                        lemma_subtree_le(2 * ki + 1, j);
                    }
                }
                lemma_node_frame(cell0, lazy_b, self.cell@, self.lazy@, 2 * ki, s, mid);
                lemma_node_frame(cell0, lazy_b, self.cell@, self.lazy@, 2 * ki + 1, mid + 1, e);
                // the new children's values carry the old pending value
                let f = |x: T| T::join_spec(x, lk);
                assert(node_vals(self.cell@, self.lazy@, 2 * ki, s, mid) == nv_l.map_values(f));
                assert(node_vals(self.cell@, self.lazy@, 2 * ki + 1, mid + 1, e) == nv_r.map_values(
                    f,
                ));
                lemma_map_bot(nv_l.map_values(f) + nv_r.map_values(f));
                lemma_map_concat(nv_l, nv_r, lk);
                assert(node_vals(self.cell@, self.lazy@, ki, s, e) == (nv_l + nv_r).map_values(f));
                assert(node_vals(cell0, lazy0, ki, s, e) == (nv_l + nv_r).map_values(f));
            } else {
                assert(node_vals(self.cell@, self.lazy@, ki, s, e) =~= node_vals(
                    cell0,
                    lazy0,
                    ki,
                    s,
                    e,
                ));
                lemma_fold_singleton(T::join_spec(ck, lk));
            }
        }
    }

    /// Joins `v` into every position of `[l, r]` that the subtree at node
    /// `k` (covering `[s, e]`) is responsible for: a node outside `[l, r]`
    /// is skipped, a fully covered node records the value in its pending
    /// slot and resolves it, and a partially overlapping node is resolved
    /// first, recursed into, and its cell recomputed from the children.
    #[verifier::rlimit(60)]
    fn insert_rec(
        &mut self,
        k: usize,
        s: usize,
        e: usize,
        l: usize,
        r: usize,
        v: T,
        Ghost(d): Ghost<nat>,
    )
        requires
            old(self).arrays_ok(),
            wf_node::<T>(old(self).cell@, old(self).lazy@, k as int, s as int, e as int),
            1 <= s <= e <= old(self).n,
            depth_ok(d, k as int, s as int, e as int, old(self).n as int),
        ensures
            final(self).arrays_ok(),
            final(self).n == old(self).n,
            final(self).default == old(self).default,
            wf_node::<T>(final(self).cell@, final(self).lazy@, k as int, s as int, e as int),
            node_vals(final(self).cell@, final(self).lazy@, k as int, s as int, e as int)
                == apply_range(
                node_vals(old(self).cell@, old(self).lazy@, k as int, s as int, e as int),
                s as int,
                l as int,
                r as int,
                v,
            ),
            forall|j: int|
                0 <= j < final(self).cell@.len() && !in_subtree(k as int, j) ==> final(self).cell@[j]
                    == old(self).cell@[j] && final(self).lazy@[j] == old(self).lazy@[j],
        decreases e - s,
    {
        let ghost ki = k as int;
        let ghost si = s as int;
        let ghost ei = e as int;
        let ghost li = l as int;
        let ghost ri = r as int;
        let ghost cell0 = self.cell@;
        let ghost lazy0 = self.lazy@;
        let ghost nv0 = node_vals(cell0, lazy0, ki, si, ei);
        // the backing array fits in memory, so child indices fit in usize
        let len = self.cell.len();
        proof {
            lemma_depth_bounds(d, ki, si, ei, self.n as int);
            lemma_node_vals_len(cell0, lazy0, ki, si, ei);
            lemma_subtree_self(ki);
        }
        if r < s || e < l {
            proof {
                lemma_apply_outside(nv0, si, li, ri, v);
            }
            return ;
        }
        if l <= s && e <= r {
            let lv = T::join(self.lazy[k], v);
            self.lazy.set(k, lv);
            proof {
                assert(self.lazy@ =~= lazy0.update(ki, T::join_spec(lazy0[ki], v)));
                lemma_root_lazy_join(cell0, lazy0, ki, si, ei, v);
                lemma_apply_covered(nv0, si, li, ri, v);
            }
            self.push(k, Ghost(si), Ghost(ei));
            return ;
        }
        // partially overlapping, hence an inner node
        assert(si < ei);
        self.push(k, Ghost(si), Ghost(ei));
        let ghost cell1 = self.cell@;
        let ghost lazy1 = self.lazy@;
        let mid = (s + e) / 2;
        let ghost mi = mid as int;
        let ghost nv1l = node_vals(cell1, lazy1, 2 * ki, si, mi);
        let ghost nv1r = node_vals(cell1, lazy1, 2 * ki + 1, mi + 1, ei);
        proof {
            lemma_depth_children(d, ki, si, ei, self.n as int);
            lemma_subtree_self(2 * ki);
            lemma_subtree_self(2 * ki + 1);
            lemma_node_vals_len(cell1, lazy1, 2 * ki, si, mi);
            lemma_node_vals_len(cell1, lazy1, 2 * ki + 1, mi + 1, ei);
        }
        self.insert_rec(2 * k, s, mid, l, r, v, Ghost(d + 1));
        let ghost cell2 = self.cell@;
        let ghost lazy2 = self.lazy@;
        proof {
            assert forall|j: int| #[trigger]
                in_subtree(2 * ki + 1, j) && 0 <= j < cell1.len() implies cell2[j] == cell1[j]
                && lazy2[j] == lazy1[j] by {
                lemma_subtree_disjoint(ki, j);
            }
            lemma_node_frame(cell1, lazy1, cell2, lazy2, 2 * ki + 1, mi + 1, ei);
        }
        self.insert_rec(2 * k + 1, mid + 1, e, l, r, v, Ghost(d + 1));
        let ghost cell3 = self.cell@;
        let ghost lazy3 = self.lazy@;
        proof {
            assert forall|j: int| #[trigger]
                in_subtree(2 * ki, j) && 0 <= j < cell1.len() implies cell3[j] == cell2[j]
                && lazy3[j] == lazy2[j] by {
                lemma_subtree_disjoint(ki, j);
            }
            lemma_node_frame(cell2, lazy2, cell3, lazy3, 2 * ki, si, mi);
        }
        self.push(2 * k, Ghost(si), Ghost(mi));
        let ghost cell4 = self.cell@;
        let ghost lazy4 = self.lazy@;
        proof {
            assert forall|j: int| #[trigger]
                in_subtree(2 * ki + 1, j) && 0 <= j < cell1.len() implies cell4[j] == cell3[j]
                && lazy4[j] == lazy3[j] by {
                if j == 2 * ki || j == 4 * ki || j == 4 * ki + 1 {
                    lemma_subtree_self(2 * ki);
                    lemma_subtree_disjoint(ki, j);
                }
            }
            lemma_node_frame(cell3, lazy3, cell4, lazy4, 2 * ki + 1, mi + 1, ei);
        }
        self.push(2 * k + 1, Ghost(mi + 1), Ghost(ei));
        let ghost cell5 = self.cell@;
        let ghost lazy5 = self.lazy@;
        proof {
            assert forall|j: int| #[trigger]
                in_subtree(2 * ki, j) && 0 <= j < cell1.len() implies cell5[j] == cell4[j]
                && lazy5[j] == lazy4[j] by {
                if j == 2 * ki + 1 || j == 4 * ki + 2 || j == 4 * ki + 3 {
                    lemma_subtree_self(2 * ki + 1);
                    lemma_subtree_disjoint(ki, j);
                }
            }
            lemma_node_frame(cell4, lazy4, cell5, lazy5, 2 * ki, si, mi);
        }
        let c = T::join(self.cell[2 * k], self.cell[2 * k + 1]);
        self.cell.set(k, c);
        proof {
            let cell6 = self.cell@;
            let lazy6 = self.lazy@;
            let nvl = apply_range(nv1l, si, li, ri, v);
            let nvr = apply_range(nv1r, mi + 1, li, ri, v);
            // the write to cell k leaves both child subtrees untouched
            assert forall|j: int| #[trigger]
                in_subtree(2 * ki, j) && 0 <= j < cell1.len() implies cell6[j] == cell5[j]
                && lazy6[j] == lazy5[j] by {
                if j == ki {
                    lemma_subtree_le(2 * ki, j);
                }
            }
            assert forall|j: int| #[trigger]
                in_subtree(2 * ki + 1, j) && 0 <= j < cell1.len() implies cell6[j] == cell5[j]
                && lazy6[j] == lazy5[j] by {
                if j == ki {
                    lemma_subtree_le(2 * ki + 1, j);
                }
            }
            lemma_node_frame(cell5, lazy5, cell6, lazy6, 2 * ki, si, mi);
            lemma_node_frame(cell5, lazy5, cell6, lazy6, 2 * ki + 1, mi + 1, ei);
            assert(node_vals(cell6, lazy6, 2 * ki, si, mi) == nvl);
            assert(node_vals(cell6, lazy6, 2 * ki + 1, mi + 1, ei) == nvr);
            // the pending slot of k stayed at bottom throughout
            assert(!in_subtree(2 * ki, ki) && !in_subtree(2 * ki + 1, ki)) by {
                if in_subtree(2 * ki, ki) {
                    lemma_subtree_le(2 * ki, ki);
                }
                if in_subtree(2 * ki + 1, ki) {
                    lemma_subtree_le(2 * ki + 1, ki);
                }
            }
            assert(lazy6[ki] == T::bot_spec());
            // assemble the represented values
            lemma_map_bot(node_vals(cell6, lazy6, 2 * ki, si, mi) + node_vals(
                cell6,
                lazy6,
                2 * ki + 1,
                mi + 1,
                ei,
            ));
            assert(node_vals(cell6, lazy6, ki, si, ei) == nvl + nvr);
            // and relate them to the requested range update
            lemma_map_bot(nv1l + nv1r);
            assert(node_vals(cell1, lazy1, ki, si, ei) == nv1l + nv1r);
            lemma_apply_concat(nv1l, nv1r, si, li, ri, v);
            assert(nvl + nvr == apply_range(nv0, si, li, ri, v));
            // the recomputed cell is the fold of the new values
            lemma_fold_concat(nvl, nvr);
            T::lemma_bot(cell6[ki]);
            assert(T::join_spec(cell6[ki], lazy6[ki]) == fold_vals(
                node_vals(cell6, lazy6, ki, si, ei),
            ));
            // every write happened inside the subtree of k
            assert forall|j: int|
                0 <= j < cell6.len() && !in_subtree(ki, j) implies cell6[j] == cell0[j] && lazy6[j]
                == lazy0[j] by {
                lemma_subtree_trans(ki, 2 * ki, 4 * ki);
                lemma_subtree_trans(ki, 2 * ki, 4 * ki + 1);
                lemma_subtree_trans(ki, 2 * ki + 1, 4 * ki + 2);
                lemma_subtree_trans(ki, 2 * ki + 1, 4 * ki + 3);
                if in_subtree(2 * ki, j) {
                    lemma_subtree_trans(ki, 2 * ki, j);
                }
                if in_subtree(2 * ki + 1, j) {
                    lemma_subtree_trans(ki, 2 * ki + 1, j);
                }
            }
        }
    }

    /// Folds the values of the positions in `[l, r]` that the subtree at
    /// node `k` (covering `[s, e]`) is responsible for, resolving pending
    /// values on the way down; the values the tree represents are
    /// unchanged.  A node outside `[l, r]` contributes bottom.
    #[verifier::rlimit(60)]
    fn query_rec(
        &mut self,
        k: usize,
        s: usize,
        e: usize,
        l: usize,
        r: usize,
        Ghost(d): Ghost<nat>,
    ) -> (res: T)
        requires
            old(self).arrays_ok(),
            wf_node::<T>(old(self).cell@, old(self).lazy@, k as int, s as int, e as int),
            1 <= s <= e <= old(self).n,
            depth_ok(d, k as int, s as int, e as int, old(self).n as int),
        ensures
            final(self).arrays_ok(),
            final(self).n == old(self).n,
            final(self).default == old(self).default,
            wf_node::<T>(final(self).cell@, final(self).lazy@, k as int, s as int, e as int),
            node_vals(final(self).cell@, final(self).lazy@, k as int, s as int, e as int)
                == node_vals(old(self).cell@, old(self).lazy@, k as int, s as int, e as int),
            res == fold_vals(
                clip(
                    node_vals(old(self).cell@, old(self).lazy@, k as int, s as int, e as int),
                    s as int,
                    l as int,
                    r as int,
                ),
            ),
            forall|j: int|
                0 <= j < final(self).cell@.len() && !in_subtree(k as int, j) ==> final(self).cell@[j]
                    == old(self).cell@[j] && final(self).lazy@[j] == old(self).lazy@[j],
        decreases e - s,
    {
        let ghost ki = k as int;
        let ghost si = s as int;
        let ghost ei = e as int;
        let ghost li = l as int;
        let ghost ri = r as int;
        let ghost cell0 = self.cell@;
        let ghost lazy0 = self.lazy@;
        let ghost nv0 = node_vals(cell0, lazy0, ki, si, ei);
        // the backing array fits in memory, so child indices fit in usize
        let len = self.cell.len();
        proof {
            lemma_depth_bounds(d, ki, si, ei, self.n as int);
            lemma_node_vals_len(cell0, lazy0, ki, si, ei);
            lemma_subtree_self(ki);
        }
        if s > r || e < l {
            proof {
                lemma_clip_outside(nv0, si, li, ri);
            }
            return self.default;
        }
        self.push(k, Ghost(si), Ghost(ei));
        if l <= s && e <= r {
            proof {
                lemma_clip_covered(nv0, si, li, ri);
            }
            return self.cell[k];
        }
        // partially overlapping, hence an inner node
        assert(si < ei);
        let ghost cell1 = self.cell@;
        let ghost lazy1 = self.lazy@;
        let mid = (s + e) / 2;
        let ghost mi = mid as int;
        let ghost nv1l = node_vals(cell1, lazy1, 2 * ki, si, mi);
        let ghost nv1r = node_vals(cell1, lazy1, 2 * ki + 1, mi + 1, ei);
        proof {
            lemma_depth_children(d, ki, si, ei, self.n as int);
            lemma_subtree_self(2 * ki);
            lemma_subtree_self(2 * ki + 1);
            lemma_node_vals_len(cell1, lazy1, 2 * ki, si, mi);
            lemma_node_vals_len(cell1, lazy1, 2 * ki + 1, mi + 1, ei);
        }
        let a = self.query_rec(2 * k, s, mid, l, r, Ghost(d + 1));
        let ghost cell2 = self.cell@;
        let ghost lazy2 = self.lazy@;
        proof {
            assert forall|j: int| #[trigger]
                in_subtree(2 * ki + 1, j) && 0 <= j < cell1.len() implies cell2[j] == cell1[j]
                && lazy2[j] == lazy1[j] by {
                lemma_subtree_disjoint(ki, j);
            }
            lemma_node_frame(cell1, lazy1, cell2, lazy2, 2 * ki + 1, mi + 1, ei);
        }
        let b = self.query_rec(2 * k + 1, mid + 1, e, l, r, Ghost(d + 1));
        let ghost cell3 = self.cell@;
        let ghost lazy3 = self.lazy@;
        let res = T::join(a, b);
        proof {
            assert forall|j: int| #[trigger]
                in_subtree(2 * ki, j) && 0 <= j < cell1.len() implies cell3[j] == cell2[j]
                && lazy3[j] == lazy2[j] by {
                lemma_subtree_disjoint(ki, j);
            }
            lemma_node_frame(cell2, lazy2, cell3, lazy3, 2 * ki, si, mi);
            // the two sub-results fold the two halves of the clipped range
            lemma_clip_concat(nv1l, nv1r, si, li, ri);
            lemma_fold_concat(clip(nv1l, si, li, ri), clip(nv1r, mi + 1, li, ri));
            lemma_map_bot(nv1l + nv1r);
            assert(node_vals(cell1, lazy1, ki, si, ei) == nv1l + nv1r);
            // the pending slot of k stayed at bottom, so the node still
            // represents the same values
            assert(!in_subtree(2 * ki, ki) && !in_subtree(2 * ki + 1, ki)) by {
                if in_subtree(2 * ki, ki) {
                    lemma_subtree_le(2 * ki, ki);
                }
                if in_subtree(2 * ki + 1, ki) {
                    lemma_subtree_le(2 * ki + 1, ki);
                }
            }
            assert(lazy3[ki] == T::bot_spec());
            assert(cell3[ki] == cell1[ki]);
            lemma_map_bot(node_vals(cell3, lazy3, 2 * ki, si, mi) + node_vals(
                cell3,
                lazy3,
                2 * ki + 1,
                mi + 1,
                ei,
            ));
            assert(node_vals(cell3, lazy3, ki, si, ei) == nv1l + nv1r);
            T::lemma_bot(cell3[ki]);
            // every write happened inside the subtree of k
            assert forall|j: int|
                0 <= j < cell3.len() && !in_subtree(ki, j) implies cell3[j] == cell0[j] && lazy3[j]
                == lazy0[j] by {
                if in_subtree(2 * ki, j) {
                    lemma_subtree_trans(ki, 2 * ki, j);
                }
                if in_subtree(2 * ki + 1, j) {
                    lemma_subtree_trans(ki, 2 * ki + 1, j);
                }
            }
        }
        res
    }

    /// Constructs a tree over the positions `[1, n]`, every position
    /// holding `default`, which must be the bottom element of `T`.
    pub fn new(n: usize, default: T) -> (tree: Self)
        requires
            n >= 1,
            4 * n <= usize::MAX,
            default == T::bot_spec(),
        ensures
            tree.wf(),
            tree@ == Seq::new(n as nat, |i: int| T::bot_spec()),
    {
        let size = 4 * n;
        let mut cell: Vec<T> = Vec::new();
        let mut lazy: Vec<T> = Vec::new();
        let mut i: usize = 0;
        while i < size
            invariant
                i <= size,
                cell@.len() == i,
                lazy@.len() == i,
                forall|j: int| 0 <= j < i ==> cell@[j] == default && lazy@[j] == default,
            decreases size - i,
        {
            cell.push(default);
            lazy.push(default);
            i = i + 1;
        }
        let tree = SegTree { n, default, cell, lazy };
        proof {
            lemma_depth_root(n as int);
            lemma_all_bot::<T>(tree.cell@, tree.lazy@, 0, 1, 1, n as int, n as int);
        }
        tree
    }

    /// Combines the value at position `i` with `v`; every other position
    /// is unchanged.
    pub fn insert(&mut self, i: usize, v: T)
        requires
            old(self).wf(),
            1 <= i <= old(self)@.len(),
        ensures
            final(self).wf(),
            final(self)@ == old(self)@.update(
                i as int - 1,
                T::join_spec(old(self)@[i as int - 1], v),
            ),
    {
        let n = self.n;
        proof {
            lemma_depth_root(n as int);
        }
        self.insert_rec(1, 1, n, i, i, v, Ghost(0));
        proof {
            assert(self@ =~= old(self)@.update(
                i as int - 1,
                T::join_spec(old(self)@[i as int - 1], v),
            ));
        }
    }

    /// Combines every position of `[l, r]` with `v`; every position
    /// outside `[l, r]` is unchanged.
    pub fn insert_range(&mut self, l: usize, r: usize, v: T)
        requires
            old(self).wf(),
            1 <= l <= r <= old(self)@.len(),
        ensures
            final(self).wf(),
            final(self)@ == apply_range(old(self)@, 1, l as int, r as int, v),
    {
        let n = self.n;
        proof {
            lemma_depth_root(n as int);
        }
        self.insert_rec(1, 1, n, l, r, v, Ghost(0));
    }

    /// The fold of the values at the positions in `[l, r]`; positions
    /// outside `[1, n]` contribute bottom, as does an empty range, so any
    /// `l` and `r` are accepted.  The observable values are unchanged.
    pub fn query(&mut self, l: usize, r: usize) -> (res: T)
        requires
            old(self).wf(),
        ensures
            final(self).wf(),
            final(self)@ == old(self)@,
            res == range_fold(old(self)@, l as int, r as int),
    {
        let n = self.n;
        proof {
            lemma_depth_root(n as int);
        }
        self.query_rec(1, 1, n, l, r, Ghost(0))
    }
}

/// One point update on the abstract values: the value at position `p`
/// (1-based) combined with `v`, exactly as `insert` ensures.
pub open spec fn apply_update<T: Semilattice>(vals: Seq<T>, p: int, v: T) -> Seq<T> {
    vals.update(p - 1, T::join_spec(vals[p - 1], v))
}

/// A sequence of point updates `(position, value)`, applied in order.
pub open spec fn apply_updates<T: Semilattice>(vals: Seq<T>, us: Seq<(int, T)>) -> Seq<T>
    decreases us.len(),
{
    if us.len() == 0 {
        vals
    } else {
        apply_update(apply_updates(vals, us.drop_last()), us.last().0, us.last().1)
    }
}

/// The fold, in application order and starting from `d`, of the values of
/// the updates made at position `p`.
pub open spec fn folded_at<T: Semilattice>(d: T, us: Seq<(int, T)>, p: int) -> T
    decreases us.len(),
{
    if us.len() == 0 {
        d
    } else if us.last().0 == p {
        T::join_spec(folded_at(d, us.drop_last(), p), us.last().1)
    } else {
        folded_at(d, us.drop_last(), p)
    }
}

/// Aggregate correctness: after any sequence of point updates on an
/// all-default tree, the value at position `p` is the fold, in application
/// order, of every update value applied at `p`, starting from the default.
pub proof fn lemma_aggregate_correctness<T: Semilattice>(n: int, us: Seq<(int, T)>, p: int)
    requires
        1 <= p <= n,
        forall|t: int| 0 <= t < us.len() ==> 1 <= (#[trigger] us[t]).0 <= n,
    ensures
        apply_updates(Seq::new(n as nat, |i: int| T::bot_spec()), us).len() == n,
        apply_updates(Seq::new(n as nat, |i: int| T::bot_spec()), us)[p - 1] == folded_at(
            T::bot_spec(),
            us,
            p,
        ),
    decreases us.len(),
{
    if us.len() > 0 {
        assert(us[us.len() - 1] == us.last());
        lemma_aggregate_correctness::<T>(n, us.drop_last(), p);
    }
}

/// A point query reads exactly the value at that position.
pub proof fn lemma_range_fold_point<T: Semilattice>(vals: Seq<T>, p: int)
    requires
        1 <= p <= vals.len(),
    ensures
        range_fold(vals, p, p) == vals[p - 1],
{
    assert(clip(vals, 1, p, p) =~= seq![vals[p - 1]]);
    lemma_fold_singleton(vals[p - 1]);
}

/// Range/point equivalence: a range update over `[i, i]` produces the same
/// observable state as a point update at `i`.
pub proof fn lemma_range_point_equivalence<T: Semilattice>(vals: Seq<T>, i: int, v: T)
    requires
        1 <= i <= vals.len(),
    ensures
        apply_range(vals, 1, i, i, v) == apply_update(vals, i, v),
{
    assert(apply_range(vals, 1, i, i, v) =~= apply_update(vals, i, v));
}

/// Locality: an update at position `i` does not change a query over a
/// range that does not contain `i`.
pub proof fn lemma_locality<T: Semilattice>(vals: Seq<T>, i: int, v: T, l: int, r: int)
    requires
        1 <= i <= vals.len(),
        !(l <= i <= r),
    ensures
        range_fold(apply_update(vals, i, v), l, r) == range_fold(vals, l, r),
{
    assert(clip(apply_update(vals, i, v), 1, l, r) =~= clip(vals, 1, l, r));
}

/// Out-of-range neutrality: a query entirely outside `[1, n]` folds to the
/// default.
pub proof fn lemma_out_of_range_neutral<T: Semilattice>(vals: Seq<T>, l: int, r: int)
    requires
        l > vals.len() || r < 1,
    ensures
        range_fold(vals, l, r) == T::bot_spec(),
{
    lemma_clip_outside(vals, 1, l, r);
}

} // verus!
