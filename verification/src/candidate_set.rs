//! A set of candidate values drawn from `1..=9`.

use vstd::prelude::*;

verus! {

/// The values `1..=9` that may still be placed in one cell. Its members
/// are visited in ascending order, so that a search over them is
/// reproducible.
#[derive(Clone, Copy, Debug, PartialEq, Eq)]
pub struct CandidateSet {
    present: [bool; 9],
}

/// How many of the first `k` slots are set.
spec fn count_upto(present: [bool; 9], k: int) -> nat
    decreases k,
{
    if k <= 0 {
        0
    } else {
        count_upto(present, k - 1) + if present[k - 1] {
            1nat
        } else {
            0nat
        }
    }
}

/// The members that are at most `k`.
spec fn members_upto(present: [bool; 9], k: int) -> Set<int> {
    Set::new(|v: int| 1 <= v <= k && present[v - 1])
}

proof fn lemma_members_upto(present: [bool; 9], k: int)
    requires
        0 <= k <= 9,
    ensures
        members_upto(present, k).finite(),
        members_upto(present, k).len() == count_upto(present, k),
    decreases k,
{
    if k == 0 {
        assert(members_upto(present, 0) =~= Set::<int>::empty());
    } else {
        lemma_members_upto(present, k - 1);
        if present[k - 1] {
            assert(members_upto(present, k) =~= members_upto(present, k - 1).insert(k));
        } else {
            assert(members_upto(present, k) =~= members_upto(present, k - 1));
        }
    }
}

impl View for CandidateSet {
    type V = Set<int>;

    closed spec fn view(&self) -> Set<int> {
        members_upto(self.present, 9)
    }
}

impl CandidateSet {
    /// Every member is one of `1..=9`, so the set is finite.
    pub proof fn lemma_bounded(self)
        ensures
            self@.finite(),
            self@.len() <= 9,
            forall|v: int| self@.contains(v) ==> 1 <= v <= 9,
    {
        lemma_members_upto(self.present, 9);
        Self::lemma_count_bounded(self.present, 9);
    }

    proof fn lemma_count_bounded(present: [bool; 9], k: int)
        requires
            0 <= k,
        ensures
            count_upto(present, k) <= k,
        decreases k,
    {
        if k > 0 {
            Self::lemma_count_bounded(present, k - 1);
        }
    }

    /// Two candidate sets with the same members are the same value.
    pub proof fn lemma_extensional(self, other: CandidateSet)
        requires
            self@ == other@,
        ensures
            self == other,
    {
        assert forall|i: int| 0 <= i < 9 implies self.present[i] == other.present[i] by {
            assert(self@.contains(i + 1) == self.present[i]);
            assert(other@.contains(i + 1) == other.present[i]);
        }
        assert(self.present =~= other.present);
    }

    /// The empty set.
    pub fn new() -> (s: CandidateSet)
        ensures
            s@ == Set::<int>::empty(),
    {
        let s = CandidateSet { present: [false; 9] };
        assert(s@ =~= Set::<int>::empty());
        s
    }

    /// Adds `value` to the set.
    pub fn insert(&mut self, value: usize)
        requires
            1 <= value <= 9,
        ensures
            final(self)@ == old(self)@.insert(value as int),
    {
        self.present[value - 1] = true;
        assert(self@ =~= old(self)@.insert(value as int));
    }

    /// Takes `value` out of the set; a value that is not a member, or not
    /// one of `1..=9`, leaves the set as it was.
    pub fn remove(&mut self, value: usize)
        ensures
            final(self)@ == old(self)@.remove(value as int),
    {
        if 1 <= value && value <= 9 {
            self.present[value - 1] = false;
        }
        assert(self@ =~= old(self)@.remove(value as int));
    }

    /// Whether `value` is a member.
    pub fn contains(&self, value: usize) -> (found: bool)
        ensures
            found == self@.contains(value as int),
    {
        1 <= value && value <= 9 && self.present[value - 1]
    }

    /// The number of members.
    pub fn len(&self) -> (n: usize)
        ensures
            n == self@.len(),
            n <= 9,
    {
        let mut n: usize = 0;
        let mut k: usize = 0;
        while k < 9
            invariant
                k <= 9,
                n == count_upto(self.present, k as int),
                n <= k,
            decreases 9 - k,
        {
            if self.present[k] {
                n += 1;
            }
            k += 1;
        }
        proof {
            lemma_members_upto(self.present, 9);
        }
        n
    }

    /// Whether the set has no member.
    pub fn is_empty(&self) -> (empty: bool)
        ensures
            empty == (self@.len() == 0),
            empty == (self@ == Set::<int>::empty()),
    {
        let n: usize = self.len();
        proof {
            self.lemma_bounded();
            if n == 0 {
                assert(self@ =~= Set::<int>::empty());
            }
        }
        n == 0
    }
}

} // verus!
