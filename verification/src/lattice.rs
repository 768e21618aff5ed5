//! The operator contract for range aggregation, and folds over sequences.
//!
//! A segment tree with lazy propagation merges a pending value into a node's
//! aggregate with the same operator that combines two aggregates, and reuses
//! one `default` value both as the seed of every cell and as the "nothing
//! pending" sentinel.  That is sound exactly when the operator is a
//! join-semilattice operation (associative, commutative, idempotent) whose
//! bottom element is `default`.  Integer maximum with `MIN` as bottom is the
//! canonical instance.

use vstd::prelude::*;

verus! {

/// A join-semilattice with a bottom element.
///
/// `join_spec` must be associative, commutative and idempotent, and
/// `bot_spec` must be its identity; implementors prove the four laws.
pub trait Semilattice: Sized + Copy {
    /// The bottom (identity) element.
    spec fn bot_spec() -> Self;

    /// The combining operator.
    spec fn join_spec(a: Self, b: Self) -> Self;

    /// Executable join, agreeing with `join_spec`.
    fn join(a: Self, b: Self) -> (r: Self)
        ensures
            r == Self::join_spec(a, b),
    ;

    /// The join is associative.
    proof fn lemma_assoc(a: Self, b: Self, c: Self)
        ensures
            Self::join_spec(Self::join_spec(a, b), c) == Self::join_spec(
                a,
                Self::join_spec(b, c),
            ),
    ;

    /// The join is commutative.
    proof fn lemma_comm(a: Self, b: Self)
        ensures
            Self::join_spec(a, b) == Self::join_spec(b, a),
    ;

    /// The join is idempotent.
    proof fn lemma_idem(a: Self)
        ensures
            Self::join_spec(a, a) == a,
    ;

    /// Bottom is the identity of the join.
    proof fn lemma_bot(a: Self)
        ensures
            Self::join_spec(a, Self::bot_spec()) == a,
    ;
}

/// Maximum over `i32`, with `i32::MIN` as bottom.
impl Semilattice for i32 {
    open spec fn bot_spec() -> i32 {
        i32::MIN
    }

    open spec fn join_spec(a: i32, b: i32) -> i32 {
        if a >= b {
            a
        } else {
            b
        }
    }

    fn join(a: i32, b: i32) -> i32 {
        if a >= b {
            a
        } else {
            b
        }
    }

    proof fn lemma_assoc(a: i32, b: i32, c: i32) {
    }

    proof fn lemma_comm(a: i32, b: i32) {
    }

    proof fn lemma_idem(a: i32) {
    }

    proof fn lemma_bot(a: i32) {
    }
}

/// The join of all elements of `s`, in order, starting from bottom.
pub open spec fn fold_vals<T: Semilattice>(s: Seq<T>) -> T
    decreases s.len(),
{
    if s.len() == 0 {
        T::bot_spec()
    } else {
        T::join_spec(fold_vals(s.drop_last()), s.last())
    }
}

/// Folding a single element yields that element.
pub proof fn lemma_fold_singleton<T: Semilattice>(x: T)
    ensures
        fold_vals(seq![x]) == x,
{
    assert(seq![x].drop_last() =~= Seq::<T>::empty());
    assert(fold_vals(Seq::<T>::empty()) == T::bot_spec());
    assert(seq![x].last() == x);
    assert(fold_vals(seq![x]) == T::join_spec(T::bot_spec(), x));
    T::lemma_comm(T::bot_spec(), x);
    T::lemma_bot(x);
}

/// The fold of a concatenation is the join of the folds.
pub proof fn lemma_fold_concat<T: Semilattice>(s1: Seq<T>, s2: Seq<T>)
    ensures
        fold_vals(s1 + s2) == T::join_spec(fold_vals(s1), fold_vals(s2)),
    decreases s2.len(),
{
    if s2.len() == 0 {
        assert(s1 + s2 =~= s1);
        T::lemma_bot(fold_vals(s1));
    } else {
        assert((s1 + s2).drop_last() =~= s1 + s2.drop_last());
        assert((s1 + s2).last() == s2.last());
        lemma_fold_concat(s1, s2.drop_last());
        T::lemma_assoc(fold_vals(s1), fold_vals(s2.drop_last()), s2.last());
    }
}

/// Joining `v` into every element joins `v` into the fold (for a non-empty
/// sequence).
pub proof fn lemma_fold_map_join<T: Semilattice>(s: Seq<T>, v: T)
    requires
        s.len() >= 1,
    ensures
        fold_vals(s.map_values(|x: T| T::join_spec(x, v))) == T::join_spec(fold_vals(s), v),
    decreases s.len(),
{
    let f = |x: T| T::join_spec(x, v);
    if s.len() == 1 {
        assert(s =~= seq![s[0]]);
        assert(s.map_values(f) =~= seq![T::join_spec(s[0], v)]);
        lemma_fold_singleton(s[0]);
        lemma_fold_singleton(T::join_spec(s[0], v));
    } else {
        assert(s.map_values(f).drop_last() =~= s.drop_last().map_values(f));
        assert(s.map_values(f).last() == T::join_spec(s.last(), v));
        lemma_fold_map_join(s.drop_last(), v);
        let a = fold_vals(s.drop_last());
        let b = s.last();
        // j(j(a, v), j(b, v)) == j(j(a, b), v)
        T::lemma_assoc(T::join_spec(a, v), b, v);
        T::lemma_assoc(a, v, b);
        T::lemma_comm(v, b);
        T::lemma_assoc(a, b, v);
        T::lemma_assoc(T::join_spec(T::join_spec(a, b), v), v, v);
        T::lemma_assoc(T::join_spec(a, b), v, v);
        T::lemma_idem(v);
    }
}

/// Joining bottom into every element changes nothing.
pub proof fn lemma_map_bot<T: Semilattice>(s: Seq<T>)
    ensures
        s.map_values(|x: T| T::join_spec(x, T::bot_spec())) == s,
{
    let f = |x: T| T::join_spec(x, T::bot_spec());
    assert forall|i: int| 0 <= i < s.len() implies s.map_values(f)[i] == s[i] by {
        T::lemma_bot(s[i]);
    }
    assert(s.map_values(f) =~= s);
}

/// Joining `a` then `b` into every element is joining `join(a, b)` once.
pub proof fn lemma_map_join_twice<T: Semilattice>(s: Seq<T>, a: T, b: T)
    ensures
        s.map_values(|x: T| T::join_spec(x, a)).map_values(|x: T| T::join_spec(x, b))
            == s.map_values(|x: T| T::join_spec(x, T::join_spec(a, b))),
{
    let fa = |x: T| T::join_spec(x, a);
    let fb = |x: T| T::join_spec(x, b);
    let fab = |x: T| T::join_spec(x, T::join_spec(a, b));
    assert forall|i: int| 0 <= i < s.len() implies s.map_values(fa).map_values(fb)[i] == s.map_values(
        fab,
    )[i] by {
        T::lemma_assoc(s[i], a, b);
    }
    assert(s.map_values(fa).map_values(fb) =~= s.map_values(fab));
}

/// A sequence of bottoms folds to bottom.
pub proof fn lemma_fold_bots<T: Semilattice>(m: nat)
    ensures
        fold_vals(Seq::new(m, |i: int| T::bot_spec())) == T::bot_spec(),
    decreases m,
{
    let s = Seq::new(m, |i: int| T::bot_spec());
    if m > 0 {
        assert(s.drop_last() =~= Seq::new((m - 1) as nat, |i: int| T::bot_spec()));
        lemma_fold_bots::<T>((m - 1) as nat);
        T::lemma_bot(T::bot_spec());
    }
}

/// Mapping distributes over concatenation.
pub proof fn lemma_map_concat<T: Semilattice>(s1: Seq<T>, s2: Seq<T>, v: T)
    ensures
        (s1 + s2).map_values(|x: T| T::join_spec(x, v)) == s1.map_values(
            |x: T| T::join_spec(x, v),
        ) + s2.map_values(|x: T| T::join_spec(x, v)),
{
    let f = |x: T| T::join_spec(x, v);
    assert((s1 + s2).map_values(f) =~= s1.map_values(f) + s2.map_values(f));
}

} // verus!
