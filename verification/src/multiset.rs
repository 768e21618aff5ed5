//! A multiset: a set that counts repeated elements, kept as a sorted
//! vector.

use vstd::prelude::*;

use vstd::multiset::Multiset;
use vstd::pervasive::VecAdditionalExecFns;

use crate::next_permutation::non_decreasing;

verus! {

/// A multiset of `u64` values; behaves like a set except that it can hold
/// an element several times.
#[derive(Debug, Clone)]
pub struct MultiSet {
    elems: Vec<u64>,
}

/// A double-ended cursor over a multiset's elements in ascending order.
pub struct Iter<'a> {
    elems: &'a Vec<u64>,
    front: usize,
    back: usize,
}

impl<'a> Iter<'a> {
    /// The elements not yet handed out, in ascending order.
    pub closed spec fn remaining(self) -> Seq<u64> {
        self.elems@.subrange(self.front as int, self.back as int)
    }

    /// The cursor bounds are in range.
    pub closed spec fn wf(self) -> bool {
        self.front <= self.back <= self.elems@.len()
    }

    /// Hands out the smallest remaining element.
    pub fn next(&mut self) -> (r: Option<u64>)
        requires
            old(self).wf(),
        ensures
            final(self).wf(),
            old(self).remaining().len() == 0 ==> r is None && final(self).remaining()
                == old(self).remaining(),
            old(self).remaining().len() > 0 ==> r == Some(old(self).remaining().first())
                && final(self).remaining() == old(self).remaining().drop_first(),
    {
        if self.front < self.back {
            let v = self.elems[self.front];
            self.front = self.front + 1;
            proof {
                assert(final(self).remaining() =~= old(self).remaining().drop_first());
            }
            Some(v)
        } else {
            None
        }
    }

    /// Hands out the largest remaining element.
    pub fn next_back(&mut self) -> (r: Option<u64>)
        requires
            old(self).wf(),
        ensures
            final(self).wf(),
            old(self).remaining().len() == 0 ==> r is None && final(self).remaining()
                == old(self).remaining(),
            old(self).remaining().len() > 0 ==> r == Some(old(self).remaining().last())
                && final(self).remaining() == old(self).remaining().drop_last(),
    {
        if self.front < self.back {
            self.back = self.back - 1;
            let v = self.elems[self.back];
            proof {
                assert(final(self).remaining() =~= old(self).remaining().drop_last());
            }
            Some(v)
        } else {
            None
        }
    }
}

impl MultiSet {
    /// The elements, kept in ascending order.
    pub closed spec fn wf(self) -> bool {
        non_decreasing(self.elems@)
    }

    /// The abstract contents.
    pub closed spec fn view(self) -> Multiset<u64> {
        self.elems@.to_multiset()
    }

    /// An empty multiset.
    pub fn new() -> (m: MultiSet)
        ensures
            m.wf(),
            m@ == Multiset::<u64>::empty(),
    {
        let m = MultiSet { elems: Vec::new() };
        proof {
            assert(m.elems@.to_multiset() =~= Multiset::<u64>::empty()) by {
                broadcast use vstd::seq_lib::group_to_multiset_ensures;

            }
        }
        m
    }

    /// Adds one occurrence of `val`.
    pub fn insert(&mut self, val: u64)
        requires
            old(self).wf(),
        ensures
            final(self).wf(),
            final(self)@ == old(self)@.insert(val),
    {
        let mut i: usize = 0;
        while i < self.elems.len() && self.elems[i] < val
            invariant
                old(self) == self,
                i <= self.elems@.len(),
                forall|t: int| 0 <= t < i ==> #[trigger] self.elems@[t] < val,
            decreases self.elems@.len() - i,
        {
            i = i + 1;
        }
        proof {
            vstd::seq_lib::to_multiset_insert(self.elems@, i as int, val);
        }
        let ghost s = self.elems@;
        let ghost ii = i as int;
        self.elems.insert(i, val);
        proof {
            let s2 = self.elems@;
            assert(ii < s.len() ==> val <= s[ii]);
            assert forall|t: int| 0 <= t < s2.len() - 1 implies #[trigger] s2[t] <= s2[t + 1] by {
                if t + 1 < ii {
                    assert(s2[t] == s[t] && s2[t + 1] == s[t + 1]);
                    assert(s[t] <= s[t + 1]);
                } else if t + 1 == ii {
                    assert(s2[t] == s[t] && s2[t + 1] == val);
                } else if t == ii {
                    assert(s2[t] == val && s2[t + 1] == s[t]);
                } else {
                    assert(s2[t] == s[t - 1] && s2[t + 1] == s[t]);
                    assert(s[t - 1] <= s[t]);
                }
            }
        }
    }

    /// How many elements the multiset holds, repetitions counted.
    pub fn len(&self) -> (r: usize)
        requires
            self.wf(),
        ensures
            r == self@.len(),
    {
        proof {
            broadcast use vstd::seq_lib::group_to_multiset_ensures;

        }
        self.elems.len()
    }

    /// Whether at least one occurrence of `val` is present.
    pub fn contains(&self, val: u64) -> (r: bool)
        requires
            self.wf(),
        ensures
            r == (self@.count(val) > 0),
    {
        proof {
            broadcast use vstd::seq_lib::group_to_multiset_ensures;

        }
        let mut i: usize = 0;
        while i < self.elems.len()
            invariant
                forall|t: int| 0 <= t < i ==> #[trigger] self.elems@[t] != val,
                i <= self.elems@.len(),
                self@.count(val) > 0 <==> self.elems@.contains(val),
            decreases self.elems@.len() - i,
        {
            if self.elems[i] == val {
                return true;
            }
            i = i + 1;
        }
        false
    }

    /// Removes one occurrence of `val`; returns whether one was present
    /// and removed.
    pub fn remove(&mut self, val: u64) -> (r: bool)
        requires
            old(self).wf(),
        ensures
            final(self).wf(),
            r == (old(self)@.count(val) > 0),
            r ==> final(self)@ == old(self)@.remove(val),
            !r ==> final(self)@ == old(self)@,
    {
        proof {
            broadcast use vstd::seq_lib::group_to_multiset_ensures;

        }
        let mut i: usize = 0;
        while i < self.elems.len()
            invariant
                old(self) == self,
                non_decreasing(self.elems@),
                forall|t: int| 0 <= t < i ==> #[trigger] self.elems@[t] != val,
                i <= self.elems@.len(),
                old(self)@.count(val) > 0 <==> self.elems@.contains(val),
            decreases self.elems@.len() - i,
        {
            if self.elems[i] == val {
                proof {
                    vstd::seq_lib::to_multiset_remove(self.elems@, i as int);
                }
                let ghost s = self.elems@;
                let ghost ii = i as int;
                self.elems.remove(i);
                proof {
                    let s2 = self.elems@;
                    assert forall|t: int| 0 <= t < s2.len() - 1 implies #[trigger] s2[t] <= s2[t
                        + 1] by {
                        if t + 1 < ii {
                            assert(s2[t] == s[t] && s2[t + 1] == s[t + 1]);
                            assert(s[t] <= s[t + 1]);
                        } else if t + 1 == ii {
                            assert(s2[t] == s[t] && s2[t + 1] == s[t + 2]);
                            assert(s[t] <= s[t + 1] && s[t + 1] <= s[t + 2]);
                        } else {
                            assert(s2[t] == s[t + 1] && s2[t + 1] == s[t + 2]);
                            assert(s[t + 1] <= s[t + 2]);
                        }
                    }
                }
                return true;
            }
            i = i + 1;
        }
        false
    }

    /// A cursor over the elements in ascending order; its contents are
    /// exactly this multiset.
    pub fn iter<'a>(&'a self) -> (it: Iter<'a>)
        requires
            self.wf(),
        ensures
            it.wf(),
            it.remaining().to_multiset() == self@,
            non_decreasing(it.remaining()),
    {
        let it = Iter { elems: &self.elems, front: 0, back: self.elems.len() };
        proof {
            assert(it.remaining() =~= self.elems@);
        }
        it
    }
}

} // verus!
