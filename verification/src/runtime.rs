//! State of one runtime instance: the foreign stack, the protection keys
//! and library handles, symbol resolution and stacked allocations.
use vstd::prelude::*;
use crate::tracker::{
    AllocError, EncapfnMPKRtAllocTracker, covers, without_allocations_at, lemma_track_then_release,
};

verus! {

/// Size of the foreign stack of a runtime instance: 8 MiB.
pub const STACK_SIZE: usize = 8 * 1024 * 1024;

/// Page size on x86-64 Linux.
pub const PAGE_SIZE: usize = 4096;

/// Size of the heap mapped for the foreign library's allocator: 128 GiB.
pub const FOREIGN_HEAP_SIZE: u64 = 128 * 1024 * 1024 * 1024;

/// Per-thread state that the protection-domain switch reads: the runtime
/// that is currently executing foreign code (as an address), and the PKRU
/// value that was meant to be loaded.
pub struct RustThreadState {
    pub runtime: usize,
    pub pkru_shadow: u32,
}

impl RustThreadState {
    /// No runtime, and a cleared PKRU shadow copy.
    pub fn new() -> (s: Self)
        ensures
            s.runtime == 0,
            s.pkru_shadow == 0,
    {
        RustThreadState { runtime: 0, pkru_shadow: 0 }
    }
}

/// `a - b`, or 0 where that would be negative (`usize::saturating_sub`).
pub open spec fn saturating_sub(a: int, b: int) -> int {
    if a >= b {
        a - b
    } else {
        0
    }
}

/// Where a stacked allocation of `size` bytes with alignment `align` lands
/// below the foreign stack pointer `fsp`: `size` bytes down, then down by
/// the amount that `fsp` lies above a multiple of `align`, both without
/// going below 0.
pub open spec fn stacked_alloc_ptr(fsp: usize, size: usize, align: usize) -> int {
    saturating_sub(saturating_sub(fsp as int, size as int), (fsp % align) as int)
}

/// The outcome of a stacked allocation: refused for a zero size, refused
/// when it would cross the stack bottom, and placed at `stacked_alloc_ptr`
/// otherwise.
pub open spec fn stacked_alloc_result(fsp: usize, bottom: usize, size: usize, align: usize) -> Result<
    usize,
    AllocError,
> {
    if size == 0 {
        Err(AllocError::AllocInvalidLayout)
    } else if stacked_alloc_ptr(fsp, size, align) < bottom {
        Err(AllocError::AllocNoMem)
    } else {
        Ok(stacked_alloc_ptr(fsp, size, align) as usize)
    }
}

/// The foreign stack pointer of `s` lies within its stack.
pub open spec fn stack_wf(s: EncapfnMPKRtAsmState) -> bool {
    s.spec_foreign_stack_bottom() <= s.spec_foreign_stack_ptr() <= s.spec_foreign_stack_top()
}

/// The state that the protection-domain switch reads and writes, with
/// addresses held as integers.
pub struct EncapfnMPKRtAsmState {
    /// Current foreign stack pointer.
    foreign_stack_ptr: usize,
    /// Foreign stack top (exclusive); the stack grows downward from here.
    foreign_stack_top: usize,
    /// Foreign stack bottom (inclusive): the last usable stack address.
    foreign_stack_bottom: usize,
    /// PKRU value while foreign code is running.
    foreign_code_pkru: u32,
    /// Scratch space for the Rust stack pointer while foreign code runs.
    rust_stack_ptr: usize,
    /// Scratch space for the address of the invocation result.
    invoke_res_ptr: usize,
    /// Prefix of this runtime's log messages.
    log_prefix: String,
}

impl EncapfnMPKRtAsmState {
    /// The foreign stack pointer lies within the foreign stack.
    #[verifier::type_invariant]
    spec fn inv(self) -> bool {
        self.foreign_stack_bottom <= self.foreign_stack_ptr <= self.foreign_stack_top
    }

    pub closed spec fn spec_foreign_stack_ptr(&self) -> usize {
        self.foreign_stack_ptr
    }

    pub closed spec fn spec_foreign_stack_top(&self) -> usize {
        self.foreign_stack_top
    }

    pub closed spec fn spec_foreign_stack_bottom(&self) -> usize {
        self.foreign_stack_bottom
    }

    pub closed spec fn spec_foreign_code_pkru(&self) -> u32 {
        self.foreign_code_pkru
    }

    pub closed spec fn spec_log_prefix(&self) -> Seq<char> {
        self.log_prefix@
    }

    pub closed spec fn spec_rust_stack_ptr(&self) -> usize {
        self.rust_stack_ptr
    }

    pub closed spec fn spec_invoke_res_ptr(&self) -> usize {
        self.invoke_res_ptr
    }

    /// State for a fresh foreign stack `[bottom, top)`: the stack is empty
    /// and no memory protection is engaged yet (PKRU 0).
    pub fn new(foreign_stack_bottom: usize, foreign_stack_top: usize, log_prefix: String) -> (s:
        Self)
        requires
            foreign_stack_bottom <= foreign_stack_top,
        ensures
            s.spec_foreign_stack_ptr() == foreign_stack_top,
            s.spec_foreign_stack_top() == foreign_stack_top,
            s.spec_foreign_stack_bottom() == foreign_stack_bottom,
            s.spec_foreign_code_pkru() == 0,
            s.spec_rust_stack_ptr() == 0,
            s.spec_invoke_res_ptr() == 0,
            s.spec_log_prefix() == log_prefix@,
    {
        EncapfnMPKRtAsmState {
            foreign_stack_ptr: foreign_stack_top,
            foreign_stack_top,
            foreign_stack_bottom,
            foreign_code_pkru: 0,
            rust_stack_ptr: 0,
            invoke_res_ptr: 0,
            log_prefix,
        }
    }

    /// The foreign stack pointer, which lies within the foreign stack.
    pub fn foreign_stack_ptr(&self) -> (r: usize)
        ensures
            r == self.spec_foreign_stack_ptr(),
            stack_wf(*self),
    {
        proof {
            use_type_invariant(self);
        }
        self.foreign_stack_ptr
    }

    pub fn foreign_stack_top(&self) -> (r: usize)
        ensures
            r == self.spec_foreign_stack_top(),
    {
        self.foreign_stack_top
    }

    pub fn foreign_stack_bottom(&self) -> (r: usize)
        ensures
            r == self.spec_foreign_stack_bottom(),
    {
        self.foreign_stack_bottom
    }

    pub fn foreign_code_pkru(&self) -> (r: u32)
        ensures
            r == self.spec_foreign_code_pkru(),
    {
        self.foreign_code_pkru
    }

    pub fn log_prefix(&self) -> (r: &String)
        ensures
            r@ == self.spec_log_prefix(),
    {
        &self.log_prefix
    }

    /// Loads `pkru` for all subsequent calls into foreign code; nothing
    /// else changes.
    pub fn engage_protection(&mut self, pkru: u32)
        ensures
            final(self).spec_foreign_code_pkru() == pkru,
            final(self).spec_foreign_stack_ptr() == old(self).spec_foreign_stack_ptr(),
            final(self).spec_foreign_stack_top() == old(self).spec_foreign_stack_top(),
            final(self).spec_foreign_stack_bottom() == old(self).spec_foreign_stack_bottom(),
            final(self).spec_rust_stack_ptr() == old(self).spec_rust_stack_ptr(),
            final(self).spec_invoke_res_ptr() == old(self).spec_invoke_res_ptr(),
            final(self).spec_log_prefix() == old(self).spec_log_prefix(),
    {
        proof {
            use_type_invariant(&*self);
        }
        self.foreign_code_pkru = pkru;
    }

    /// This state with the foreign stack pointer at `ptr`.
    pub closed spec fn with_stack_ptr(self, ptr: usize) -> Self {
        EncapfnMPKRtAsmState {
            foreign_stack_ptr: ptr,
            foreign_stack_top: self.foreign_stack_top,
            foreign_stack_bottom: self.foreign_stack_bottom,
            foreign_code_pkru: self.foreign_code_pkru,
            rust_stack_ptr: self.rust_stack_ptr,
            invoke_res_ptr: self.invoke_res_ptr,
            log_prefix: self.log_prefix,
        }
    }

    /// Moving the foreign stack pointer changes nothing else, and moving it
    /// back to where it was gives the state back.
    pub proof fn lemma_with_stack_ptr(self, ptr: usize)
        ensures
            self.with_stack_ptr(ptr).spec_foreign_stack_ptr() == ptr,
            self.with_stack_ptr(ptr).spec_foreign_stack_top() == self.spec_foreign_stack_top(),
            self.with_stack_ptr(ptr).spec_foreign_stack_bottom() == self.spec_foreign_stack_bottom(),
            self.with_stack_ptr(ptr).spec_foreign_code_pkru() == self.spec_foreign_code_pkru(),
            self.with_stack_ptr(ptr).spec_rust_stack_ptr() == self.spec_rust_stack_ptr(),
            self.with_stack_ptr(ptr).spec_invoke_res_ptr() == self.spec_invoke_res_ptr(),
            self.with_stack_ptr(ptr).spec_log_prefix() == self.spec_log_prefix(),
            self.with_stack_ptr(ptr).with_stack_ptr(self.spec_foreign_stack_ptr()) == self,
            self.with_stack_ptr(self.spec_foreign_stack_ptr()) == self,
    {
    }

    /// Records where the foreign stack pointer now stands (as the
    /// protection-domain switch left it); nothing else changes.
    pub fn set_foreign_stack_ptr(&mut self, ptr: usize)
        requires
            old(self).spec_foreign_stack_bottom() <= ptr <= old(self).spec_foreign_stack_top(),
        ensures
            *final(self) == old(self).with_stack_ptr(ptr),
    {
        self.foreign_stack_ptr = ptr;
    }

    /// Where a stacked allocation of `size` bytes aligned to `align` goes.
    fn stacked_alloc(&self, size: usize, align: usize) -> (r: Result<usize, AllocError>)
        requires
            align > 0,
        ensures
            r == stacked_alloc_result(
                self.foreign_stack_ptr,
                self.foreign_stack_bottom,
                size,
                align,
            ),
    {
        if size == 0 {
            return Err(AllocError::AllocInvalidLayout);
        }
        let original_fsp = self.foreign_stack_ptr;
        // Move the stack pointer down by the requested size, then down to
        // the alignment, never below 0.
        let mut fsp = original_fsp.saturating_sub(size);
        fsp = fsp.saturating_sub(original_fsp % align);
        if fsp < self.foreign_stack_bottom {
            return Err(AllocError::AllocNoMem);
        }
        Ok(fsp)
    }

    /// A copy of this state with the foreign stack pointer at `ptr`.
    fn lowered_to(&self, ptr: usize) -> (s: EncapfnMPKRtAsmState)
        requires
            self.foreign_stack_bottom <= ptr <= self.foreign_stack_ptr,
        ensures
            lowered_state(s, *self, ptr),
    {
        proof {
            use_type_invariant(self);
        }
        EncapfnMPKRtAsmState {
            foreign_stack_ptr: ptr,
            foreign_stack_top: self.foreign_stack_top,
            foreign_stack_bottom: self.foreign_stack_bottom,
            foreign_code_pkru: self.foreign_code_pkru,
            rust_stack_ptr: self.rust_stack_ptr,
            invoke_res_ptr: self.invoke_res_ptr,
            log_prefix: self.log_prefix.clone(),
        }
    }

    /// Allocates `size` bytes aligned to `align` on the foreign stack and
    /// runs `fun` with the allocation's address and a copy of this state
    /// whose foreign stack pointer is lowered to the allocation, so that
    /// anything `fun` places on the foreign stack, nested allocations
    /// included, goes below it. This state does not change.
    pub fn allocate_stacked_untracked_mut<R, F: FnOnce(usize, EncapfnMPKRtAsmState) -> R>(
        &self,
        size: usize,
        align: usize,
        fun: F,
    ) -> (r: Result<R, AllocError>)
        requires
            align > 0,
            stacked_alloc_in(*self, size, align) matches Ok(p) ==> forall|
                s: EncapfnMPKRtAsmState,
            | lowered_state(s, *self, p) ==> #[trigger] fun.requires((p, s)),
        ensures
            stacked_call(*self, size, align, fun, r),
    {
        let ptr = match self.stacked_alloc(size, align) {
            Ok(p) => p,
            Err(e) => {
                return Err(e);
            },
        };
        let lowered = self.lowered_to(ptr);
        let ghost s = lowered;
        let res = fun(ptr, lowered);
        assert(fun.ensures((ptr, s), res));
        Ok(res)
    }

    /// As `allocate_stacked_untracked_mut`, and tracks the allocation of
    /// `size` bytes while `fun` runs: `fun` also gets the tracker with the
    /// allocation added and hands it back; afterwards every allocation that
    /// starts at the allocation's address is dropped from it.
    pub fn allocate_stacked_mut<
        R,
        F: FnOnce(usize, EncapfnMPKRtAsmState, EncapfnMPKRtAllocTracker) -> (
            R,
            EncapfnMPKRtAllocTracker,
        ),
    >(
        &self,
        size: usize,
        align: usize,
        alloc_scope: &mut EncapfnMPKRtAllocTracker,
        fun: F,
    ) -> (r: Result<R, AllocError>)
        requires
            align > 0,
            stacked_alloc_in(*self, size, align) matches Ok(p) ==> forall|
                s: EncapfnMPKRtAsmState,
                t: EncapfnMPKRtAllocTracker,
            |
                lowered_state(s, *self, p) && t.allocations() == old(
                    alloc_scope,
                ).allocations().push((p, size)) ==> #[trigger] fun.requires((p, s, t)),
        ensures
            tracked_stacked_call(
                *self,
                old(alloc_scope).allocations(),
                size,
                align,
                fun,
                r,
                final(alloc_scope).allocations(),
            ),
    {
        let ptr = match self.stacked_alloc(size, align) {
            Ok(p) => p,
            Err(e) => {
                return Err(e);
            },
        };
        let original_fsp = self.foreign_stack_ptr;
        proof {
            if original_fsp >= size && original_fsp - size >= original_fsp % align {
                assert(ptr + size <= original_fsp);
            } else {
                assert(ptr == 0);
            }
        }
        let lowered = self.lowered_to(ptr);
        let ghost s = lowered;
        let mut tracker = EncapfnMPKRtAllocTracker::new();
        std::mem::swap(&mut tracker, alloc_scope);
        // Make the allocation referenceable while `fun` runs; the requested
        // size is tracked, not any padding.
        tracker.push_back(ptr, size);
        let ghost t_in = tracker;
        let (res, mut tracker) = fun(ptr, lowered, tracker);
        let ghost t_out = tracker;
        tracker.remove_at(ptr);
        std::mem::swap(&mut tracker, alloc_scope);
        assert(fun.ensures((ptr, s, t_in), (res, t_out)));
        Ok(res)
    }
}

/// `s` is `before` with the foreign stack pointer lowered to `p`: every
/// other part is the same, and the pointer lies within the stack.
pub open spec fn lowered_state(s: EncapfnMPKRtAsmState, before: EncapfnMPKRtAsmState, p: usize) -> bool {
    &&& s.spec_foreign_stack_ptr() == p
    &&& s.spec_foreign_stack_top() == before.spec_foreign_stack_top()
    &&& s.spec_foreign_stack_bottom() == before.spec_foreign_stack_bottom()
    &&& s.spec_foreign_code_pkru() == before.spec_foreign_code_pkru()
    &&& s.spec_rust_stack_ptr() == before.spec_rust_stack_ptr()
    &&& s.spec_invoke_res_ptr() == before.spec_invoke_res_ptr()
    &&& s.spec_log_prefix() == before.spec_log_prefix()
    &&& stack_wf(s)
}

/// The outcome of a stacked allocation of `size` bytes aligned to `align`
/// on the foreign stack of `s`.
pub open spec fn stacked_alloc_in(s: EncapfnMPKRtAsmState, size: usize, align: usize) -> Result<
    usize,
    AllocError,
> {
    stacked_alloc_result(s.spec_foreign_stack_ptr(), s.spec_foreign_stack_bottom(), size, align)
}

/// A stacked allocation on `before` that ran `fun` gave `r`: a refused
/// allocation gives its error; otherwise `fun` got the allocation's address
/// and `before` with the stack pointer lowered to it, and `r` holds what
/// `fun` returned.
pub open spec fn stacked_call<R, F: FnOnce(usize, EncapfnMPKRtAsmState) -> R>(
    before: EncapfnMPKRtAsmState,
    size: usize,
    align: usize,
    fun: F,
    r: Result<R, AllocError>,
) -> bool {
    match stacked_alloc_in(before, size, align) {
        Err(e) => r == Err::<R, AllocError>(e),
        Ok(p) => exists|s: EncapfnMPKRtAsmState, v: R|
            {
                &&& lowered_state(s, before, p)
                &&& #[trigger] fun.ensures((p, s), v)
                &&& r == Ok::<R, AllocError>(v)
            },
    }
}

/// As `stacked_call`, for a tracked allocation: `fun` also got the
/// tracker with the allocation added, and the allocations that start at the
/// allocation's address are dropped from the tracker it handed back.
pub open spec fn tracked_stacked_call<
    R,
    F: FnOnce(usize, EncapfnMPKRtAsmState, EncapfnMPKRtAllocTracker) -> (
        R,
        EncapfnMPKRtAllocTracker,
    ),
>(
    before: EncapfnMPKRtAsmState,
    allocations_before: Seq<(usize, usize)>,
    size: usize,
    align: usize,
    fun: F,
    r: Result<R, AllocError>,
    allocations_after: Seq<(usize, usize)>,
) -> bool {
    match stacked_alloc_in(before, size, align) {
        Err(e) => r == Err::<R, AllocError>(e) && allocations_after == allocations_before,
        Ok(p) => exists|
            s: EncapfnMPKRtAsmState,
            t_in: EncapfnMPKRtAllocTracker,
            t_out: EncapfnMPKRtAllocTracker,
            v: R,
        |
            {
                &&& lowered_state(s, before, p)
                &&& t_in.allocations() == allocations_before.push((p, size))
                &&& #[trigger] fun.ensures((p, s, t_in), (v, t_out))
                &&& r == Ok::<R, AllocError>(v)
                &&& allocations_after == without_allocations_at(t_out.allocations(), p)
            },
    }
}

/// A stacked allocation that succeeds on a stack whose bottom is not the
/// null address lies on the stack, below the stack pointer it started from.
pub proof fn lemma_stacked_alloc_within_stack(fsp: usize, bottom: usize, size: usize, align: usize)
    requires
        align > 0,
        bottom > 0,
        stacked_alloc_result(fsp, bottom, size, align) is Ok,
    ensures
        bottom <= stacked_alloc_result(fsp, bottom, size, align)->Ok_0,
        stacked_alloc_result(fsp, bottom, size, align)->Ok_0 + size <= fsp,
{
}

/// A stacked allocation whose size is a multiple of its alignment, on a
/// stack whose bottom is not the null address, is aligned.
pub proof fn lemma_stacked_alloc_aligned(fsp: usize, bottom: usize, size: usize, align: usize)
    requires
        align > 0,
        bottom > 0,
        size % align == 0,
        stacked_alloc_result(fsp, bottom, size, align) is Ok,
    ensures
        stacked_alloc_result(fsp, bottom, size, align)->Ok_0 % align == 0,
{
    let p = stacked_alloc_result(fsp, bottom, size, align)->Ok_0 as int;
    let f = fsp as int;
    let s = size as int;
    let a = align as int;
    assert(p == f - s - f % a);
    assert((f - s - f % a) % a == 0) by (nonlinear_arith)
        requires
            a > 0,
            s % a == 0,
    {
        assert(f == a * (f / a) + f % a);
        assert(s == a * (s / a));
        assert(f - s - f % a == a * (f / a - s / a));
        vstd::arithmetic::div_mod::lemma_mod_multiples_basic(f / a - s / a, a);
    }
}

/// An allocation made inside the callback of another, on the state that
/// callback got, lies on the stack below the outer allocation, and both lie
/// within the stack, for a stack whose bottom is not the null address.
pub proof fn lemma_nested_stacked_alloc(
    s: EncapfnMPKRtAsmState,
    inner: EncapfnMPKRtAsmState,
    size: usize,
    align: usize,
    inner_size: usize,
    inner_align: usize,
)
    requires
        align > 0,
        inner_align > 0,
        stack_wf(s),
        s.spec_foreign_stack_bottom() > 0,
        stacked_alloc_in(s, size, align) is Ok,
        lowered_state(inner, s, stacked_alloc_in(s, size, align)->Ok_0),
        stacked_alloc_in(inner, inner_size, inner_align) is Ok,
    ensures
        s.spec_foreign_stack_bottom() <= stacked_alloc_in(inner, inner_size, inner_align)->Ok_0,
        stacked_alloc_in(inner, inner_size, inner_align)->Ok_0 + inner_size <= stacked_alloc_in(
            s,
            size,
            align,
        )->Ok_0,
        stacked_alloc_in(s, size, align)->Ok_0 + size <= s.spec_foreign_stack_ptr(),
        s.spec_foreign_stack_ptr() <= s.spec_foreign_stack_top(),
{
    lemma_stacked_alloc_within_stack(
        s.spec_foreign_stack_ptr(),
        s.spec_foreign_stack_bottom(),
        size,
        align,
    );
    lemma_stacked_alloc_within_stack(
        inner.spec_foreign_stack_ptr(),
        inner.spec_foreign_stack_bottom(),
        inner_size,
        inner_align,
    );
}

/// `x` rounded up to a multiple of `a`.
pub open spec fn round_up(x: int, a: int) -> int {
    ((x + a - 1) / a) * a
}

/// The alignment of a page-granular allocation for a layout aligned to
/// `align`: at least a page.
pub open spec fn page_align(align: usize) -> usize {
    if align >= PAGE_SIZE {
        align
    } else {
        PAGE_SIZE
    }
}

/// The layout that a heap-backed stacked allocation of `size` bytes aligned
/// to `align` takes (`Layout::align_to(PAGE_SIZE)` then `pad_to_align`):
/// page aligned at least, and the size rounded up to that alignment, so
/// that assigning its pages a key touches no neighbouring memory. The
/// widened alignment must still allow `size` as a `Layout`.
pub fn heap_alloc_page_layout(size: usize, align: usize) -> (r: (usize, usize))
    requires
        align > 0,
        size <= isize::MAX as int - (isize::MAX as int % page_align(align) as int),
    ensures
        r.1 == page_align(align),
        r.0 == round_up(size as int, r.1 as int),
        size <= r.0,
{
    let a = if align >= PAGE_SIZE {
        align
    } else {
        PAGE_SIZE
    };
    proof {
        assert(size + a - 1 <= usize::MAX) by (nonlinear_arith)
            requires
                size <= isize::MAX as int - (isize::MAX as int % a as int),
                a > 0,
                isize::MAX < usize::MAX,
                a <= usize::MAX,
        {
            assert(isize::MAX as int % (a as int) >= 0);
            assert(isize::MAX as int % (a as int) < a);
        }
        let q = (size + a - 1) / (a as int);
        assert(q * a <= size + a - 1 && q * a >= size) by (nonlinear_arith)
            requires
                a > 0,
                q == (size + a - 1) / (a as int),
                size >= 0,
        {
            assert(size + a - 1 == q * a + (size + a - 1) % (a as int));
        }
    }
    let padded = (size + (a - 1)) / a * a;
    (padded, a)
}

/// Symbols resolved for a runtime instance: one address per symbol of a
/// symbol table of `SYMTAB_SIZE` entries.
pub struct EncapfnMPKSymbolTable<const SYMTAB_SIZE: usize> {
    symbols: Vec<usize>,
}

impl<const SYMTAB_SIZE: usize> EncapfnMPKSymbolTable<SYMTAB_SIZE> {
    /// There is one address per symbol.
    #[verifier::type_invariant]
    spec fn inv(self) -> bool {
        self.symbols@.len() == SYMTAB_SIZE
    }

    /// The resolved addresses, in symbol-table order.
    pub closed spec fn symbols(&self) -> Seq<usize> {
        self.symbols@
    }

    /// There is one address per symbol.
    pub fn len(&self) -> (n: usize)
        ensures
            n == self.symbols().len(),
            n == SYMTAB_SIZE,
    {
        proof {
            use_type_invariant(self);
        }
        self.symbols.len()
    }
}

/// One runtime instance, with its foreign libraries loaded into a link
/// namespace of their own and their memory assigned to protection keys.
/// Handles and addresses are held as integers.
pub struct EncapfnMPKRt {
    asm_state: EncapfnMPKRtAsmState,
    id: usize,
    /// Handle of the runtime library, loaded into a fresh link namespace.
    rt_lib_handle: usize,
    /// The link namespace of the runtime library and its dependencies.
    rt_lmid: i64,
    /// Handles of all loaded libraries, searched in this order.
    lib_handles: Vec<usize>,
    /// Key of the library's mutable state.
    pkey_library: i32,
    /// Key of pages that the library may only read.
    pkey_library_ro: i32,
    /// Key of pages allocated to Rust, if it has one.
    pkey_rust: Option<i32>,
}

/// Library `l` is the first of `handles` for which `lookup` can answer a
/// non-null address `addr` for symbol `s`: every library before it can
/// answer null.
pub open spec fn first_hit<F: Fn(usize, usize) -> usize>(
    lookup: F,
    handles: Seq<usize>,
    s: usize,
    l: int,
    addr: usize,
) -> bool {
    &&& 0 <= l < handles.len()
    &&& addr != 0
    &&& lookup.ensures((handles[l], s), addr)
    &&& forall|m: int| 0 <= m < l ==> lookup.ensures((#[trigger] handles[m], s), 0usize)
}

/// `addr` is the address that the first library providing symbol `s`
/// answers.
pub open spec fn resolved_symbol<F: Fn(usize, usize) -> usize>(
    lookup: F,
    handles: Seq<usize>,
    s: usize,
    addr: usize,
) -> bool {
    exists|l: int| #[trigger] first_hit(lookup, handles, s, l, addr)
}

/// Every library can answer null for symbol `s`.
pub open spec fn unresolvable<F: Fn(usize, usize) -> usize>(
    lookup: F,
    handles: Seq<usize>,
    s: usize,
) -> bool {
    forall|l: int| 0 <= l < handles.len() ==> lookup.ensures((#[trigger] handles[l], s), 0usize)
}

impl EncapfnMPKRt {
    /// A runtime assembled from the resources that setting it up acquired.
    pub fn from_parts(
        asm_state: EncapfnMPKRtAsmState,
        id: usize,
        rt_lib_handle: usize,
        rt_lmid: i64,
        lib_handles: Vec<usize>,
        pkey_library: i32,
        pkey_library_ro: i32,
        pkey_rust: Option<i32>,
    ) -> (rt: Self)
        ensures
            rt.spec_asm_state() == asm_state,
            rt.spec_id() == id,
            rt.spec_rt_lib_handle() == rt_lib_handle,
            rt.spec_rt_lmid() == rt_lmid,
            rt.spec_lib_handles() == lib_handles@,
            rt.spec_pkey_library() == pkey_library,
            rt.spec_pkey_library_ro() == pkey_library_ro,
            rt.spec_pkey_rust() == pkey_rust,
    {
        EncapfnMPKRt {
            asm_state,
            id,
            rt_lib_handle,
            rt_lmid,
            lib_handles,
            pkey_library,
            pkey_library_ro,
            pkey_rust,
        }
    }

    pub closed spec fn spec_asm_state(&self) -> EncapfnMPKRtAsmState {
        self.asm_state
    }

    pub closed spec fn spec_id(&self) -> usize {
        self.id
    }

    pub closed spec fn spec_rt_lib_handle(&self) -> usize {
        self.rt_lib_handle
    }

    pub closed spec fn spec_rt_lmid(&self) -> i64 {
        self.rt_lmid
    }

    pub closed spec fn spec_lib_handles(&self) -> Seq<usize> {
        self.lib_handles@
    }

    pub closed spec fn spec_pkey_library(&self) -> i32 {
        self.pkey_library
    }

    pub closed spec fn spec_pkey_library_ro(&self) -> i32 {
        self.pkey_library_ro
    }

    pub closed spec fn spec_pkey_rust(&self) -> Option<i32> {
        self.pkey_rust
    }

    pub fn asm_state(&self) -> (r: &EncapfnMPKRtAsmState)
        ensures
            *r == self.spec_asm_state(),
    {
        &self.asm_state
    }

    pub fn id(&self) -> (r: usize)
        ensures
            r == self.spec_id(),
    {
        self.id
    }

    pub fn rt_lib_handle(&self) -> (r: usize)
        ensures
            r == self.spec_rt_lib_handle(),
    {
        self.rt_lib_handle
    }

    pub fn rt_lmid(&self) -> (r: i64)
        ensures
            r == self.spec_rt_lmid(),
    {
        self.rt_lmid
    }

    pub fn pkey_library(&self) -> (r: i32)
        ensures
            r == self.spec_pkey_library(),
    {
        self.pkey_library
    }

    pub fn pkey_library_ro(&self) -> (r: i32)
        ensures
            r == self.spec_pkey_library_ro(),
    {
        self.pkey_library_ro
    }

    pub fn pkey_rust(&self) -> (r: Option<i32>)
        ensures
            r == self.spec_pkey_rust(),
    {
        self.pkey_rust
    }

    /// Resolves every symbol of a table of `SYMTAB_SIZE` symbols: each one
    /// to the address that the first library handle answers non-null for it
    /// (`lookup(handle, symbol index)`, null being 0). Stops at, and fails
    /// with, the first symbol that no library provides.
    pub fn resolve_symbols<const SYMTAB_SIZE: usize, F: Fn(usize, usize) -> usize>(
        &self,
        lookup: F,
    ) -> (r: Option<EncapfnMPKSymbolTable<SYMTAB_SIZE>>)
        requires
            forall|h: usize, s: usize| s < SYMTAB_SIZE ==> #[trigger] lookup.requires((h, s)),
        ensures
            match r {
                Some(t) => t.symbols().len() == SYMTAB_SIZE && forall|s: int|
                    0 <= s < SYMTAB_SIZE ==> resolved_symbol(
                        lookup,
                        self.spec_lib_handles(),
                        s as usize,
                        #[trigger] t.symbols()[s],
                    ),
                None => exists|s: int|
                    0 <= s < SYMTAB_SIZE && #[trigger] unresolvable(
                        lookup,
                        self.spec_lib_handles(),
                        s as usize,
                    ),
            },
    {
        let handles = &self.lib_handles;
        let mut symbols: Vec<usize> = Vec::new();
        let mut s: usize = 0;
        while s < SYMTAB_SIZE
            invariant
                s <= SYMTAB_SIZE,
                symbols@.len() == s,
                handles@ == self.spec_lib_handles(),
                forall|h: usize, s: usize| s < SYMTAB_SIZE ==> #[trigger] lookup.requires((h, s)),
                forall|k: int|
                    0 <= k < s ==> resolved_symbol(lookup, handles@, k as usize, #[trigger] symbols@[k]),
            decreases SYMTAB_SIZE - s,
        {
            let mut l: usize = 0;
            let mut found: usize = 0;
            while l < handles.len()
                invariant_except_break
                    found == 0,
                invariant
                    s < SYMTAB_SIZE,
                    l <= handles@.len(),
                    forall|h: usize, s: usize|
                        s < SYMTAB_SIZE ==> #[trigger] lookup.requires((h, s)),
                    forall|m: int| 0 <= m < l ==> lookup.ensures((#[trigger] handles@[m], s), 0usize),
                ensures
                    found != 0 ==> first_hit(lookup, handles@, s, l as int, found),
                    found == 0 ==> l == handles@.len(),
                decreases handles@.len() - l,
            {
                let addr = lookup(handles[l], s);
                if addr != 0 {
                    found = addr;
                    break ;
                }
                l = l + 1;
            }
            if found == 0 {
                assert(unresolvable(lookup, handles@, s));
                assert(unresolvable(lookup, self.spec_lib_handles(), (s as int) as usize));
                return None;
            }
            proof {
                assert(resolved_symbol(lookup, handles@, s, found));
            }
            symbols.push(found);
            s = s + 1;
        }
        Some(EncapfnMPKSymbolTable { symbols })
    }

    /// The address resolved for symbol `index`, if the table has one.
    pub fn lookup_symbol<const SYMTAB_SIZE: usize>(
        &self,
        index: usize,
        symtabstate: &EncapfnMPKSymbolTable<SYMTAB_SIZE>,
    ) -> (r: Option<usize>)
        ensures
            r == (if index < symtabstate.symbols().len() {
                Some(symtabstate.symbols()[index as int])
            } else {
                None
            }),
    {
        if index < symtabstate.symbols.len() {
            Some(symtabstate.symbols[index])
        } else {
            None
        }
    }

    /// The outcome of a stacked allocation of `size` bytes aligned to
    /// `align` on this runtime's foreign stack.
    pub open spec fn stacked_alloc_outcome(&self, size: usize, align: usize) -> Result<
        usize,
        AllocError,
    > {
        stacked_alloc_in(self.spec_asm_state(), size, align)
    }

    /// Everything but the state of the protection-domain switch is the same
    /// in `self` and `other`.
    pub open spec fn same_parts(&self, other: &Self) -> bool {
        &&& self.spec_id() == other.spec_id()
        &&& self.spec_rt_lib_handle() == other.spec_rt_lib_handle()
        &&& self.spec_rt_lmid() == other.spec_rt_lmid()
        &&& self.spec_lib_handles() == other.spec_lib_handles()
        &&& self.spec_pkey_library() == other.spec_pkey_library()
        &&& self.spec_pkey_library_ro() == other.spec_pkey_library_ro()
        &&& self.spec_pkey_rust() == other.spec_pkey_rust()
    }

    /// Records where the foreign stack pointer now stands (as the
    /// protection-domain switch left it); nothing else changes.
    pub fn set_foreign_stack_ptr(&mut self, ptr: usize)
        requires
            old(self).spec_asm_state().spec_foreign_stack_bottom() <= ptr <= old(
                self,
            ).spec_asm_state().spec_foreign_stack_top(),
        ensures
            final(self).same_parts(old(self)),
            final(self).spec_asm_state() == old(self).spec_asm_state().with_stack_ptr(ptr),
    {
        self.asm_state.set_foreign_stack_ptr(ptr);
    }

    /// Allocates `size` bytes aligned to `align` on the foreign stack and
    /// runs `fun` with the allocation's address and a copy of the state of
    /// the protection-domain switch whose foreign stack pointer is lowered
    /// to the allocation (so that foreign calls and nested allocations made
    /// by `fun` go below it). The runtime does not change.
    pub fn allocate_stacked_untracked_mut<R, F: FnOnce(usize, EncapfnMPKRtAsmState) -> R>(
        &self,
        size: usize,
        align: usize,
        fun: F,
    ) -> (r: Result<R, AllocError>)
        requires
            align > 0,
            self.stacked_alloc_outcome(size, align) matches Ok(p) ==> forall|
                s: EncapfnMPKRtAsmState,
            | lowered_state(s, self.spec_asm_state(), p) ==> #[trigger] fun.requires((p, s)),
        ensures
            stacked_call(self.spec_asm_state(), size, align, fun, r),
    {
        self.asm_state.allocate_stacked_untracked_mut(size, align, fun)
    }

    /// As `allocate_stacked_untracked_mut`, and tracks the allocation of
    /// `size` bytes while `fun` runs: `fun` also gets the tracker with the
    /// allocation added and hands it back; afterwards every allocation that
    /// starts at the allocation's address is dropped from it.
    pub fn allocate_stacked_mut<
        R,
        F: FnOnce(usize, EncapfnMPKRtAsmState, EncapfnMPKRtAllocTracker) -> (
            R,
            EncapfnMPKRtAllocTracker,
        ),
    >(
        &self,
        size: usize,
        align: usize,
        alloc_scope: &mut EncapfnMPKRtAllocTracker,
        fun: F,
    ) -> (r: Result<R, AllocError>)
        requires
            align > 0,
            self.stacked_alloc_outcome(size, align) matches Ok(p) ==> forall|
                s: EncapfnMPKRtAsmState,
                t: EncapfnMPKRtAllocTracker,
            |
                lowered_state(s, self.spec_asm_state(), p) && t.allocations() == old(
                    alloc_scope,
                ).allocations().push((p, size)) ==> #[trigger] fun.requires((p, s, t)),
        ensures
            tracked_stacked_call(
                self.spec_asm_state(),
                old(alloc_scope).allocations(),
                size,
                align,
                fun,
                r,
                final(alloc_scope).allocations(),
            ),
    {
        self.asm_state.allocate_stacked_mut(size, align, alloc_scope, fun)
    }
}

/// While `fun` runs, the tracker it gets lets it reference the whole
/// allocation.
pub proof fn lemma_stacked_allocation_referenceable(
    t: EncapfnMPKRtAllocTracker,
    before: Seq<(usize, usize)>,
    p: usize,
    size: usize,
)
    requires
        t.allocations() == before.push((p, size)),
        p + size <= usize::MAX,
    ensures
        exists|k: int| 0 <= k < t.allocations().len() && covers(#[trigger] t.allocations()[k], p, size),
{
    assert(covers(t.allocations()[before.len() as int], p, size));
}

/// Once a stacked allocation is over, no tracked allocation starts at its
/// address.
pub proof fn lemma_stacked_allocation_released(after: Seq<(usize, usize)>, p: usize)
    ensures
        forall|k: int|
            0 <= k < without_allocations_at(after, p).len() ==> (#[trigger] without_allocations_at(
                after,
                p,
            )[k]).0 != p,
    decreases after.len(),
{
    reveal(Seq::filter);
    if after.len() > 0 {
        lemma_stacked_allocation_released(after.drop_last(), p);
        assert forall|k: int| 0 <= k < without_allocations_at(after, p).len() implies (
        #[trigger] without_allocations_at(after, p)[k]).0 != p by {
            let prev = without_allocations_at(after.drop_last(), p);
            if k < prev.len() {
                assert(without_allocations_at(after, p)[k] == prev[k]);
            }
        }
    }
}


/// A tracked stacked allocation leaves the caller's tracker with exactly the
/// allocations it held before, once the callback hands back the tracker it
/// got and none of those allocations starts at the new allocation's
/// address: the outer allocations stay tracked, and only the new one is
/// dropped.
pub proof fn lemma_tracked_call_keeps_outer_allocations<
    R,
    F: FnOnce(usize, EncapfnMPKRtAsmState, EncapfnMPKRtAllocTracker) -> (
        R,
        EncapfnMPKRtAllocTracker,
    ),
>(
    before: EncapfnMPKRtAsmState,
    allocations_before: Seq<(usize, usize)>,
    size: usize,
    align: usize,
    fun: F,
    r: Result<R, AllocError>,
    allocations_after: Seq<(usize, usize)>,
)
    requires
        tracked_stacked_call(before, allocations_before, size, align, fun, r, allocations_after),
        stacked_alloc_in(before, size, align) matches Ok(p) ==> forall|k: int|
            0 <= k < allocations_before.len() ==> (#[trigger] allocations_before[k]).0 != p,
        forall|
            a: (usize, EncapfnMPKRtAsmState, EncapfnMPKRtAllocTracker),
            o: (R, EncapfnMPKRtAllocTracker),
        | #[trigger] fun.ensures(a, o) ==> o.1.allocations() == a.2.allocations(),
    ensures
        allocations_after == allocations_before,
{
    if let Ok(p) = stacked_alloc_in(before, size, align) {
        let (s, t_in, t_out, v) = choose|
            s: EncapfnMPKRtAsmState,
            t_in: EncapfnMPKRtAllocTracker,
            t_out: EncapfnMPKRtAllocTracker,
            v: R,
        |
            {
                &&& lowered_state(s, before, p)
                &&& t_in.allocations() == allocations_before.push((p, size))
                &&& #[trigger] fun.ensures((p, s, t_in), (v, t_out))
                &&& allocations_after == without_allocations_at(t_out.allocations(), p)
                &&& r == Ok::<R, AllocError>(v)
            };
        assert(t_out.allocations() == t_in.allocations());
        lemma_track_then_release(allocations_before, p, size);
    }
}

} // verus!
