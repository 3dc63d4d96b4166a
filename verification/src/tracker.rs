//! Tracking of the foreign memory that Rust code may currently reference,
//! and the arithmetic of stacked allocations on the foreign stack.
use vstd::prelude::*;

verus! {

/// Errors of a stacked allocation.
#[derive(PartialEq, Eq, Structural, Debug, Clone, Copy)]
pub enum AllocError {
    /// The requested layout has size zero.
    AllocInvalidLayout,
    /// The foreign stack has no room for the requested layout.
    AllocNoMem,
}

/// The allocation `(start, len)` holds the whole range `[ptr, ptr + len)`,
/// and the end of that range fits in the address space.
pub open spec fn covers(a: (usize, usize), ptr: usize, len: usize) -> bool {
    &&& ptr >= a.0
    &&& ptr + len <= usize::MAX
    &&& ptr + len <= a.0 + a.1
}

/// `s` without the allocations that start at `ptr`.
pub open spec fn without_allocations_at(s: Seq<(usize, usize)>, ptr: usize) -> Seq<(usize, usize)> {
    s.filter(|a: (usize, usize)| a.0 != ptr)
}

/// Foreign-memory allocations that are live while Rust code runs, each as
/// its start address and length.
#[derive(Debug)]
pub struct EncapfnMPKRtAllocTracker {
    allocations: Vec<(usize, usize)>,
}

impl EncapfnMPKRtAllocTracker {
    /// Every allocation ends within the address space.
    #[verifier::type_invariant]
    spec fn inv(self) -> bool {
        forall|k: int|
            0 <= k < self.allocations@.len() ==> #[trigger] self.allocations@[k].0
                + self.allocations@[k].1 <= usize::MAX
    }

    /// The live allocations, oldest first.
    pub closed spec fn allocations(&self) -> Seq<(usize, usize)> {
        self.allocations@
    }

    /// No allocation is tracked.
    pub fn new() -> (t: Self)
        ensures
            t.allocations() == Seq::<(usize, usize)>::empty(),
    {
        EncapfnMPKRtAllocTracker { allocations: Vec::new() }
    }

    /// Whether `[ptr, ptr + len)` lies within one tracked allocation.
    pub fn is_valid(&self, ptr: usize, len: usize) -> (b: bool)
        ensures
            b == exists|k: int|
                0 <= k < self.allocations().len() && covers(#[trigger] self.allocations()[k], ptr, len),
    {
        self.is_valid_mut(ptr, len)
    }

    /// Whether `[ptr, ptr + len)` lies within one tracked allocation, such
    /// that a mutable reference may cover it.
    pub fn is_valid_mut(&self, ptr: usize, len: usize) -> (b: bool)
        ensures
            b == exists|k: int|
                0 <= k < self.allocations().len() && covers(#[trigger] self.allocations()[k], ptr, len),
    {
        proof {
            use_type_invariant(self);
        }
        let mut k: usize = 0;
        while k < self.allocations.len()
            invariant
                k <= self.allocations@.len(),
                forall|j: int|
                    0 <= j < self.allocations@.len() ==> #[trigger] self.allocations@[j].0
                        + self.allocations@[j].1 <= usize::MAX,
                forall|j: int| 0 <= j < k ==> !covers(#[trigger] self.allocations@[j], ptr, len),
            decreases self.allocations@.len() - k,
        {
            let (aptr, alen) = self.allocations[k];
            let fits = ptr >= aptr && match ptr.checked_add(len) {
                Some(end) => end <= aptr + alen,
                None => false,
            };
            if fits {
                assert(covers(self.allocations()[k as int], ptr, len));
                return true;
            }
            k = k + 1;
        }
        false
    }

    /// Starts tracking the allocation `[ptr, ptr + len)`.
    pub fn push_back(&mut self, ptr: usize, len: usize)
        requires
            ptr + len <= usize::MAX,
        ensures
            final(self).allocations() == old(self).allocations().push((ptr, len)),
    {
        proof {
            use_type_invariant(&*self);
        }
        let mut allocations: Vec<(usize, usize)> = Vec::new();
        std::mem::swap(&mut allocations, &mut self.allocations);
        allocations.push((ptr, len));
        self.allocations = allocations;
    }

    /// Stops tracking every allocation that starts at `ptr`.
    pub fn remove_at(&mut self, ptr: usize)
        ensures
            final(self).allocations() == without_allocations_at(old(self).allocations(), ptr),
    {
        proof {
            use_type_invariant(&*self);
        }
        let ghost orig = self.allocations@;
        let mut kept: Vec<(usize, usize)> = Vec::new();
        let mut k: usize = 0;
        assert(orig.subrange(0, 0) =~= Seq::<(usize, usize)>::empty());
        proof {
            reveal(Seq::filter);
        }
        while k < self.allocations.len()
            invariant
                orig == self.allocations@,
                k <= orig.len(),
                kept@ == without_allocations_at(orig.subrange(0, k as int), ptr),
                forall|j: int|
                    0 <= j < orig.len() ==> #[trigger] orig[j].0 + orig[j].1 <= usize::MAX,
                forall|j: int|
                    0 <= j < kept@.len() ==> #[trigger] kept@[j].0 + kept@[j].1 <= usize::MAX,
            decreases orig.len() - k,
        {
            let a = self.allocations[k];
            proof {
                reveal(Seq::filter);
                let pre = orig.subrange(0, k + 1);
                assert(pre.drop_last() =~= orig.subrange(0, k as int));
                assert(pre.last() == a);
            }
            if a.0 != ptr {
                kept.push(a);
            }
            k = k + 1;
        }
        assert(orig.subrange(0, k as int) =~= orig);
        self.allocations = kept;
    }
}

/// Dropping the allocations at `ptr` keeps a sequence in which none starts
/// there unchanged.
pub proof fn lemma_without_absent(s: Seq<(usize, usize)>, ptr: usize)
    requires
        forall|k: int| 0 <= k < s.len() ==> (#[trigger] s[k]).0 != ptr,
    ensures
        without_allocations_at(s, ptr) == s,
    decreases s.len(),
{
    reveal(Seq::filter);
    if s.len() > 0 {
        lemma_without_absent(s.drop_last(), ptr);
        assert(without_allocations_at(s, ptr) =~= s.drop_last().push(s.last()));
        assert(s.drop_last().push(s.last()) =~= s);
    }
}

/// Tracking an allocation at an address where none starts and then
/// dropping the allocations at that address gives back what was tracked
/// before.
pub proof fn lemma_track_then_release(s: Seq<(usize, usize)>, ptr: usize, len: usize)
    requires
        forall|k: int| 0 <= k < s.len() ==> (#[trigger] s[k]).0 != ptr,
    ensures
        without_allocations_at(s.push((ptr, len)), ptr) == s,
{
    reveal(Seq::filter);
    assert(s.push((ptr, len)).drop_last() =~= s);
    lemma_without_absent(s, ptr);
}

impl Clone for EncapfnMPKRtAllocTracker {
    /// A tracker of the same allocations.
    fn clone(&self) -> (r: Self)
        ensures
            r.allocations() == self.allocations(),
    {
        proof {
            use_type_invariant(self);
        }
        let mut allocations: Vec<(usize, usize)> = Vec::new();
        let mut k: usize = 0;
        while k < self.allocations.len()
            invariant
                k <= self.allocations@.len(),
                allocations@ == self.allocations@.subrange(0, k as int),
                forall|j: int|
                    0 <= j < self.allocations@.len() ==> #[trigger] self.allocations@[j].0
                        + self.allocations@[j].1 <= usize::MAX,
            decreases self.allocations@.len() - k,
        {
            allocations.push(self.allocations[k]);
            k = k + 1;
            assert(allocations@ =~= self.allocations@.subrange(0, k as int));
        }
        assert(allocations@ =~= self.allocations@);
        EncapfnMPKRtAllocTracker { allocations }
    }
}

} // verus!
