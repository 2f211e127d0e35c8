use vstd::prelude::*;

verus! {

/// A runtime reader/writer guard: many shared borrows, or one exclusive borrow.
///
/// It never blocks: an acquisition that would break the rule is denied and
/// leaves the guard as it was.
pub struct AtomicBorrow {
    readers: usize,
    unique: bool,
}

impl AtomicBorrow {
    /// The guard never holds an exclusive borrow together with shared ones.
    pub closed spec fn wf(&self) -> bool {
        !(self.unique && self.readers > 0)
    }

    /// Number of shared borrows currently held.
    pub closed spec fn shared_count(&self) -> nat {
        self.readers as nat
    }

    /// Whether an exclusive borrow is currently held.
    pub closed spec fn is_exclusive(&self) -> bool {
        self.unique
    }

    /// Neither a shared nor an exclusive borrow is held.
    pub open spec fn is_free(&self) -> bool {
        self.shared_count() == 0 && !self.is_exclusive()
    }

    /// Whether a shared borrow would be granted now: no writer holds the guard
    /// and the reader count has room for one more.
    pub open spec fn can_borrow(&self) -> bool {
        !self.is_exclusive() && self.shared_count() < usize::MAX
    }

    /// Whether an exclusive borrow would be granted now.
    pub open spec fn can_borrow_mut(&self) -> bool {
        self.is_free()
    }

    pub fn new() -> (r: Self)
        ensures
            r.wf(),
            r.is_free(),
    {
        AtomicBorrow { readers: 0, unique: false }
    }

    /// Acquires a shared borrow; returns false, changing nothing, if it is denied.
    pub fn borrow(&mut self) -> (r: bool)
        requires
            old(self).wf(),
        ensures
            final(self).wf(),
            r == old(self).can_borrow(),
            r ==> final(self).shared_count() == old(self).shared_count() + 1,
            final(self).is_exclusive() == old(self).is_exclusive(),
            !r ==> *final(self) == *old(self),
    {
        if self.unique || self.readers == usize::MAX {
            false
        } else {
            self.readers = self.readers + 1;
            true
        }
    }

    /// Acquires the exclusive borrow; returns false, changing nothing, if it is denied.
    pub fn borrow_mut(&mut self) -> (r: bool)
        requires
            old(self).wf(),
        ensures
            final(self).wf(),
            r == old(self).can_borrow_mut(),
            r ==> final(self).is_exclusive() && final(self).shared_count() == 0,
            !r ==> *final(self) == *old(self),
    {
        if self.unique || self.readers > 0 {
            false
        } else {
            self.unique = true;
            true
        }
    }

    /// Gives back one shared borrow.
    pub fn release(&mut self)
        requires
            old(self).wf(),
            old(self).shared_count() > 0,
        ensures
            final(self).wf(),
            final(self).shared_count() == old(self).shared_count() - 1,
            final(self).is_exclusive() == old(self).is_exclusive(),
    {
        self.readers = self.readers - 1;
    }

    /// Gives back the exclusive borrow, leaving the guard free.
    pub fn release_mut(&mut self)
        requires
            old(self).wf(),
            old(self).is_exclusive(),
        ensures
            final(self).wf(),
            final(self).is_free(),
    {
        self.unique = false;
    }
}

/// While a shared borrow is held, an exclusive borrow is denied; while the
/// exclusive borrow is held, a shared borrow is denied.
pub proof fn lemma_borrow_exclusivity(g: AtomicBorrow)
    requires
        g.wf(),
    ensures
        g.is_exclusive() ==> g.shared_count() == 0,
        g.shared_count() > 0 ==> !g.can_borrow_mut(),
        g.is_exclusive() ==> !g.can_borrow(),
{
}

/// From a free guard, two shared borrows are both granted, an exclusive one is
/// then denied, and releasing both shared borrows makes the guard free again.
pub proof fn lemma_two_readers_round_trip(g0: AtomicBorrow, g1: AtomicBorrow, g2: AtomicBorrow, g3: AtomicBorrow, g4: AtomicBorrow)
    requires
        g0.wf(),
        g0.is_free(),
        g1.shared_count() == g0.shared_count() + 1,
        g1.is_exclusive() == g0.is_exclusive(),
        g2.shared_count() == g1.shared_count() + 1,
        g2.is_exclusive() == g1.is_exclusive(),
        g3.shared_count() == g2.shared_count() - 1,
        g3.is_exclusive() == g2.is_exclusive(),
        g4.shared_count() == g3.shared_count() - 1,
        g4.is_exclusive() == g3.is_exclusive(),
    ensures
        g0.can_borrow(),
        g1.can_borrow(),
        !g2.can_borrow_mut(),
        g3.shared_count() > 0,
        g4.is_free(),
{
}

} // verus!
