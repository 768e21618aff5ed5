//! The next permutation in lexicographic order, in place.

use vstd::prelude::*;

use vstd::pervasive::VecAdditionalExecFns;
use vstd::seq_lib::lemma_multiset_commutative;

verus! {

/// Adjacent elements never increase (sorted descending, ties allowed).
pub open spec fn non_increasing(s: Seq<u64>) -> bool {
    forall|i: int| 0 <= i < s.len() - 1 ==> #[trigger] s[i] >= s[i + 1]
}

/// Adjacent elements never decrease (sorted ascending, ties allowed).
pub open spec fn non_decreasing(s: Seq<u64>) -> bool {
    forall|i: int| 0 <= i < s.len() - 1 ==> #[trigger] s[i] <= s[i + 1]
}

/// `a` strictly precedes `b` in lexicographic order.
pub open spec fn lex_less(a: Seq<u64>, b: Seq<u64>) -> bool
    decreases a.len(),
{
    if b.len() == 0 {
        false
    } else if a.len() == 0 {
        true
    } else if a.first() < b.first() {
        true
    } else if a.first() > b.first() {
        false
    } else {
        lex_less(a.drop_first(), b.drop_first())
    }
}

/// Sequences that agree up to `i` and differ upward at `i` are ordered.
proof fn lemma_lex_from_index(a: Seq<u64>, b: Seq<u64>, i: int)
    requires
        0 <= i < a.len(),
        i < b.len(),
        forall|j: int| 0 <= j < i ==> a[j] == b[j],
        a[i] < b[i],
    ensures
        lex_less(a, b),
    decreases i,
{
    if i > 0 {
        lemma_lex_from_index(a.drop_first(), b.drop_first(), i - 1);
    }
}

/// In a non-increasing sequence, earlier entries are at least later ones.
proof fn lemma_pair_ge(s: Seq<u64>, i: int, j: int)
    requires
        non_increasing(s),
        0 <= i <= j < s.len(),
    ensures
        s[i] >= s[j],
    decreases j - i,
{
    if i < j {
        lemma_pair_ge(s, i + 1, j);
    }
}

/// The same, for a suffix that never increases.
proof fn lemma_pair_ge_from(s: Seq<u64>, lo: int, i: int, j: int)
    requires
        forall|t: int| lo <= t < s.len() - 1 ==> #[trigger] s[t] >= s[t + 1],
        lo <= i <= j < s.len(),
    ensures
        s[i] >= s[j],
    decreases j - i,
{
    if i < j {
        lemma_pair_ge_from(s, lo, i + 1, j);
    }
}

/// In a non-decreasing sequence, earlier entries are at most later ones.
proof fn lemma_pair_le(s: Seq<u64>, i: int, j: int)
    requires
        non_decreasing(s),
        0 <= i <= j < s.len(),
    ensures
        s[i] <= s[j],
    decreases j - i,
{
    if i < j {
        lemma_pair_le(s, i + 1, j);
    }
}

/// Sequences of equal length are equal or ordered one way by `lex_less`.
proof fn lemma_lex_total(a: Seq<u64>, b: Seq<u64>)
    requires
        a.len() == b.len(),
    ensures
        a == b || lex_less(a, b) || lex_less(b, a),
    decreases a.len(),
{
    if a.len() == 0 {
        assert(a =~= b);
    } else if a.first() == b.first() {
        lemma_lex_total(a.drop_first(), b.drop_first());
        if a.drop_first() == b.drop_first() {
            assert forall|i: int| 0 <= i < a.len() implies a[i] == b[i] by {
                if i > 0 {
                    assert(a[i] == a.drop_first()[i - 1]);
                    assert(b[i] == b.drop_first()[i - 1]);
                }
            }
            assert(a =~= b);
        }
    }
}

/// Two sequences with the same first element and the same multiset have
/// tails with the same multiset.
proof fn lemma_ms_tail(x: Seq<u64>, y: Seq<u64>)
    requires
        x.len() > 0,
        y.len() > 0,
        x[0] == y[0],
        x.to_multiset() == y.to_multiset(),
    ensures
        x.drop_first().to_multiset() == y.drop_first().to_multiset(),
{
    vstd::seq_lib::to_multiset_remove(x, 0);
    vstd::seq_lib::to_multiset_remove(y, 0);
    assert(x.remove(0) =~= x.drop_first());
    assert(y.remove(0) =~= y.drop_first());
}

/// A sequence holds any value its multiset counts.
proof fn lemma_ms_member(s: Seq<u64>, v: u64)
    requires
        s.to_multiset().count(v) > 0,
    ensures
        exists|t: int| 0 <= t < s.len() && s[t] == v,
{
    broadcast use vstd::seq_lib::group_to_multiset_ensures;

    assert(s.contains(v));
}

/// A non-increasing sequence is the lexicographically largest arrangement
/// of its elements: no permutation of it is lexicographically above it.
proof fn lemma_lex_max(s: Seq<u64>, c: Seq<u64>)
    requires
        s.len() == c.len(),
        non_increasing(s),
        s.to_multiset() == c.to_multiset(),
    ensures
        !lex_less(s, c),
    decreases s.len(),
{
    broadcast use vstd::seq_lib::group_to_multiset_ensures;

    if s.len() > 0 {
        assert(c.to_multiset().count(c[0]) > 0) by {
            assert(c.contains(c[0]));
        }
        lemma_ms_member(s, c[0]);
        let t = choose|t: int| 0 <= t < s.len() && s[t] == c[0];
        lemma_pair_ge(s, 0, t);
        assert(c.first() <= s.first());
        if s.first() == c.first() {
            lemma_ms_tail(s, c);
            assert(non_increasing(s.drop_first())) by {
                assert(forall|t2: int|
                    0 <= t2 < s.drop_first().len() - 1 ==> #[trigger] s.drop_first()[t2]
                        == s[t2 + 1] && s.drop_first()[t2 + 1] == s[t2 + 2]);
            }
            lemma_lex_max(s.drop_first(), c.drop_first());
        }
    }
}

/// A non-decreasing sequence is the lexicographically smallest arrangement
/// of its elements: no permutation of it is lexicographically below it.
proof fn lemma_lex_min(r: Seq<u64>, c: Seq<u64>)
    requires
        r.len() == c.len(),
        non_decreasing(r),
        r.to_multiset() == c.to_multiset(),
    ensures
        !lex_less(c, r),
    decreases r.len(),
{
    broadcast use vstd::seq_lib::group_to_multiset_ensures;

    if r.len() > 0 {
        assert(c.to_multiset().count(c[0]) > 0) by {
            assert(c.contains(c[0]));
        }
        lemma_ms_member(r, c[0]);
        let t = choose|t: int| 0 <= t < r.len() && r[t] == c[0];
        lemma_pair_le(r, 0, t);
        assert(c.first() >= r.first());
        if r.first() == c.first() {
            lemma_ms_tail(r, c);
            assert(non_decreasing(r.drop_first())) by {
                assert(forall|t2: int|
                    0 <= t2 < r.drop_first().len() - 1 ==> #[trigger] r.drop_first()[t2]
                        == r[t2 + 1] && r.drop_first()[t2 + 1] == r[t2 + 2]);
            }
            lemma_lex_min(r.drop_first(), c.drop_first());
        }
    }
}

/// Swapping two entries keeps the multiset of elements.
proof fn lemma_swap_multiset(s: Seq<u64>, p: int, j: int)
    requires
        0 <= p < j < s.len(),
    ensures
        s.update(p, s[j]).update(j, s[p]).to_multiset() == s.to_multiset(),
{
    broadcast use vstd::seq_lib::group_to_multiset_ensures;
    broadcast use vstd::multiset::group_multiset_axioms;

    let s2 = s.update(p, s[j]).update(j, s[p]);
    let u = s.remove(j);
    assert(s2.remove(j) =~= u.update(p, s[j]));
    assert(u.update(p, s[j]).remove(p) =~= u.remove(p));
    // peel index j, then index p, from both sequences
    assert(s2.to_multiset() == s2.remove(j).to_multiset().insert(s2[j]));
    assert(u.update(p, s[j]).to_multiset() == u.remove(p).to_multiset().insert(s[j]));
    assert(s.to_multiset() == u.to_multiset().insert(s[j]));
    assert(u.to_multiset() == u.remove(p).to_multiset().insert(u[p]));
    assert(s2.to_multiset() =~= s.to_multiset());
}

/// The successor shape is minimal: let `f` agree with `a` before position
/// `pv`; at `pv` let it hold the least element of `a`'s tail above `a[pv]`,
/// with `a`'s tail non-increasing and `f`'s tail non-decreasing.  Then any
/// arrangement `c` of the same elements lexicographically above `a` is `f`
/// itself or lies above `f`.
proof fn lemma_successor_minimal(a: Seq<u64>, f: Seq<u64>, c: Seq<u64>, pv: int)
    requires
        a.len() == f.len(),
        a.len() == c.len(),
        0 <= pv < a.len(),
        forall|t: int| 0 <= t < pv ==> a[t] == f[t],
        a[pv] < f[pv],
        exists|t: int| pv < t < a.len() && a[t] == f[pv],
        forall|t: int| pv < t < a.len() && #[trigger] a[t] > a[pv] ==> a[t] >= f[pv],
        forall|t: int| pv < t < a.len() - 1 ==> #[trigger] a[t] >= a[t + 1],
        forall|t: int| pv < t < f.len() - 1 ==> #[trigger] f[t] <= f[t + 1],
        a.to_multiset() == f.to_multiset(),
        a.to_multiset() == c.to_multiset(),
        lex_less(a, c),
    ensures
        c == f || lex_less(f, c),
    decreases pv,
{
    broadcast use vstd::seq_lib::group_to_multiset_ensures;

    let a1 = a.drop_first();
    let f1 = f.drop_first();
    let c1 = c.drop_first();
    if pv > 0 {
        // the heads of a and f agree; lex_less(a, c) leaves two cases
        if a.first() == c.first() {
            lemma_ms_tail(a, f);
            lemma_ms_tail(a, c);
            let w = choose|t: int| pv < t < a.len() && a[t] == f[pv];
            assert(a1[w - 1] == f1[pv - 1]);
            assert(exists|t: int| pv - 1 < t < a1.len() && a1[t] == f1[pv - 1]);
            assert(forall|t: int|
                pv - 1 < t < a1.len() && #[trigger] a1[t] > a1[pv - 1] ==> a1[t] >= f1[pv - 1])
                by {
                assert(forall|t: int| 0 <= t < a1.len() ==> #[trigger] a1[t] == a[t + 1]);
            }
            assert(forall|t: int| pv - 1 < t < a1.len() - 1 ==> #[trigger] a1[t] >= a1[t + 1]) by {
                assert(forall|t: int| 0 <= t < a1.len() ==> #[trigger] a1[t] == a[t + 1]);
            }
            assert(forall|t: int| pv - 1 < t < f1.len() - 1 ==> #[trigger] f1[t] <= f1[t + 1]) by {
                assert(forall|t: int| 0 <= t < f1.len() ==> #[trigger] f1[t] == f[t + 1]);
            }
            lemma_successor_minimal(a1, f1, c1, pv - 1);
            if c1 == f1 {
                assert forall|i: int| 0 <= i < c.len() implies c[i] == f[i] by {
                    if i > 0 {
                        assert(c[i] == c1[i - 1]);
                        assert(f[i] == f1[i - 1]);
                    }
                }
                assert(c =~= f);
            }
        }
    } else {
        // pv == 0: the pivot is the head
        let p = a[0];
        if a.first() == c.first() {
            // c would have to rearrange a non-increasing tail upward
            lemma_ms_tail(a, c);
            assert(non_increasing(a1)) by {
                assert(forall|t: int| 0 <= t < a1.len() ==> #[trigger] a1[t] == a[t + 1]);
            }
            lemma_lex_max(a1, c1);
        } else {
            // the heads differ, so p < c[0], and c[0] occurs in a's tail
            assert(p < c.first());
            assert(c.to_multiset().count(c[0]) > 0) by {
                assert(c.contains(c[0]));
            }
            lemma_ms_member(a, c[0]);
            let w = choose|t: int| 0 <= t < a.len() && a[t] == c[0];
            assert(w > 0);
            assert(c[0] >= f[0]);
            if c.first() == f.first() {
                lemma_ms_tail(f, c);
                assert(non_decreasing(f1)) by {
                    assert(forall|t: int| 0 <= t < f1.len() ==> #[trigger] f1[t] == f[t + 1]);
                }
                lemma_lex_min(f1, c1);
                lemma_lex_total(f1, c1);
                if c1 == f1 {
                    assert forall|i: int| 0 <= i < c.len() implies c[i] == f[i] by {
                        if i > 0 {
                            assert(c[i] == c1[i - 1]);
                            assert(f[i] == f1[i - 1]);
                        }
                    }
                    assert(c =~= f);
                }
            }
        }
    }
}

/// Reverses `arr[lo..hi]` in place.
fn reverse_range(arr: &mut Vec<u64>, lo: usize, hi: usize)
    requires
        lo <= hi <= old(arr).len(),
    ensures
        final(arr)@.len() == old(arr)@.len(),
        forall|t: int| 0 <= t < lo || hi <= t < old(arr)@.len() ==> final(arr)@[t] == old(arr)@[t],
        forall|t: int| lo <= t < hi ==> final(arr)@[t] == old(arr)@[lo + hi - 1 - t],
{
    let mut a = lo;
    let mut b = hi;
    while b - a > 1
        invariant
            lo <= a <= b <= hi <= arr@.len(),
            arr@.len() == old(arr)@.len(),
            a - lo == hi - b,
            forall|t: int|
                (0 <= t < lo || (a <= t < b) || hi <= t < arr@.len()) ==> arr@[t] == old(arr)@[t],
            forall|t: int| (lo <= t < a || b <= t < hi) ==> arr@[t] == old(arr)@[lo + hi - 1 - t],
        decreases b - a,
    {
        b = b - 1;
        let x = arr[a];
        let y = arr[b];
        arr.set(a, y);
        arr.set(b, x);
        a = a + 1;
    }
}

/// Rearranges the elements into the next permutation in lexicographic
/// order and returns `true`; when the slice already holds the largest
/// (non-increasing) arrangement, rearranges it into the smallest one
/// (its reversal) and returns `false`.  The multiset of elements is kept,
/// and the result is the least arrangement of it above the input: any
/// other arrangement above the input is the result or above it.
#[verifier::rlimit(100)]
pub fn next_permutation(arr: &mut Vec<u64>) -> (more: bool)
    ensures
        final(arr)@.len() == old(arr)@.len(),
        final(arr)@.to_multiset() == old(arr)@.to_multiset(),
        more == !non_increasing(old(arr)@),
        !more ==> final(arr)@ == old(arr)@.reverse() && non_decreasing(final(arr)@),
        more ==> lex_less(old(arr)@, final(arr)@),
        more ==> forall|c: Seq<u64>|
            c.len() == old(arr)@.len() && c.to_multiset() == old(arr)@.to_multiset()
                && #[trigger] lex_less(old(arr)@, c) ==> c == final(arr)@ || lex_less(
                final(arr)@,
                c,
            ),
        !more ==> forall|c: Seq<u64>|
            c.len() == old(arr)@.len() && #[trigger] c.to_multiset() == old(arr)@.to_multiset()
                ==> !lex_less(old(arr)@, c),
{
    let ghost s0 = arr@;
    let n = arr.len();
    if n == 0 {
        proof {
            assert(s0.reverse() =~= s0);
            assert forall|c: Seq<u64>|
                c.len() == s0.len() && c.to_multiset() == s0.to_multiset() implies !lex_less(
                s0,
                c,
            ) by {
                lemma_lex_max(s0, c);
            }
        }
        return false;
    }
    // find the start of the longest non-increasing suffix
    let mut i: usize = n - 1;
    while i > 0 && arr[i - 1] >= arr[i]
        invariant
            arr@ == s0,
            n == s0.len(),
            0 <= i <= n - 1,
            forall|t: int| i <= t < n - 1 ==> #[trigger] s0[t] >= s0[t + 1],
        decreases i,
    {
        i = i - 1;
    }
    if i == 0 {
        // the whole array is non-increasing: wrap around to the smallest
        reverse_range(arr, 0, n);
        proof {
            assert(arr@ =~= s0.reverse());
            s0.lemma_reverse_to_multiset();
            assert forall|c: Seq<u64>|
                c.len() == s0.len() && c.to_multiset() == s0.to_multiset() implies !lex_less(
                s0,
                c,
            ) by {
                lemma_lex_max(s0, c);
            }
        }
        return false;
    }
    let pivot = i - 1;
    // find the rightmost element above the pivot; arr[i] is one, so the
    // scan stops no later than i
    let mut j: usize = n - 1;
    while arr[j] <= arr[pivot]
        invariant
            arr@ == s0,
            n == s0.len(),
            1 <= i <= j < n,
            pivot == i - 1,
            s0[pivot as int] < s0[i as int],
            forall|t: int| j < t < n ==> #[trigger] s0[t] <= s0[pivot as int],
        decreases j,
    {
        j = j - 1;
    }
    let x = arr[pivot];
    let y = arr[j];
    arr.set(pivot, y);
    arr.set(j, x);
    let ghost s1 = arr@;
    proof {
        lemma_swap_multiset(s0, pivot as int, j as int);
    }
    reverse_range(arr, i, n);
    proof {
        // the reversed suffix is a permutation of the swapped one
        let tail = s1.subrange(i as int, n as int);
        assert(arr@ =~= s1.subrange(0, i as int) + tail.reverse());
        tail.lemma_reverse_to_multiset();
        lemma_multiset_commutative(s1.subrange(0, i as int), tail.reverse());
        lemma_multiset_commutative(s1.subrange(0, i as int), tail);
        assert(s1.subrange(0, i as int) + tail =~= s1);
        assert(arr@.to_multiset() =~= s0.to_multiset());
        // the result is lexicographically above the input
        assert(arr@[pivot as int] == s0[j as int]);
        lemma_lex_from_index(s0, arr@, pivot as int);
        // and it is the least such arrangement: it has the successor shape
        let fin = arr@;
        let pv = pivot as int;
        let ii = i as int;
        let jj = j as int;
        let nn = n as int;
        // the swapped tail never increases
        assert forall|t: int| ii <= t < nn - 1 implies #[trigger] s1[t] >= s1[t + 1] by {
            if t + 1 == jj {
                if t >= ii {
                    assert(s0[t] >= s0[t + 1]);
                }
            } else if t == jj {
                assert(s0[t + 1] <= s0[pv]);
            }
        }
        // so its reversal, the tail of the result, never decreases
        assert forall|t: int| pv < t < nn - 1 implies #[trigger] fin[t] <= fin[t + 1] by {
            assert(fin[t] == s1[ii + nn - 1 - t]);
            assert(fin[t + 1] == s1[ii + nn - 1 - (t + 1)]);
            lemma_pair_ge_from(s1, ii, ii + nn - 1 - (t + 1), ii + nn - 1 - t);
        }
        // the element brought to the pivot is the least one above it
        assert forall|t: int| pv < t < nn && #[trigger] s0[t] > s0[pv] implies s0[t] >= fin[pv] by {
            if t <= jj {
                lemma_pair_ge_from(s0, ii, t, jj);
            }
        }
        assert(s0[jj] == fin[pv] && pv < jj < nn);
        assert forall|c: Seq<u64>|
            c.len() == s0.len() && c.to_multiset() == s0.to_multiset() && #[trigger] lex_less(
                s0,
                c,
            ) implies c == fin || lex_less(fin, c) by {
            lemma_successor_minimal(s0, fin, c, pv);
        }
    }
    true
}

} // verus!
