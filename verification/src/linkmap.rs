//! Loaded shared objects (the dynamic linker's link map) and the memory
//! mappings that belong to each of them.
use vstd::prelude::*;
use crate::maps::{MemMapEntry, MemMapView};
use crate::sort::{SortKey, sort_by_key, stably_sorted, sorted_by_key};

verus! {

/// One shared object of a link-map list: its load address and its name
/// (the bytes of the C string, without the terminating nul).
#[derive(Clone, Debug)]
pub struct LinkMapEntry {
    pub addr: usize,
    pub name: Vec<u8>,
}

/// The mathematical value of a `LinkMapEntry`.
pub ghost struct LinkMapView {
    pub addr: usize,
    pub name: Seq<u8>,
}

impl View for LinkMapEntry {
    type V = LinkMapView;

    open spec fn view(&self) -> LinkMapView {
        LinkMapView { addr: self.addr, name: self.name@ }
    }
}

impl LinkMapEntry {
    /// A copy of this entry.
    pub fn duplicate(&self) -> (r: LinkMapEntry)
        ensures
            r@ == self@,
    {
        LinkMapEntry { addr: self.addr, name: self.name.clone() }
    }
}

impl SortKey for LinkMapEntry {
    open spec fn sort_key(&self) -> usize {
        self.addr
    }

    fn key(&self) -> (k: usize) {
        self.addr
    }
}

impl SortKey for MemMapEntry {
    open spec fn sort_key(&self) -> usize {
        self.start
    }

    fn key(&self) -> (k: usize) {
        self.start
    }
}

/// A shared object together with the memory mappings found for it.
pub struct LinkedLibraryMappings {
    pub link_map_entry: LinkMapEntry,
    pub mem_map_entries: Vec<MemMapEntry>,
}

/// The mathematical value of a `LinkedLibraryMappings`.
pub ghost struct LinkedMappingsView {
    pub link_map_entry: LinkMapView,
    pub mem_map_entries: Seq<MemMapView>,
}

impl View for LinkedLibraryMappings {
    type V = LinkedMappingsView;

    open spec fn view(&self) -> LinkedMappingsView {
        LinkedMappingsView {
            link_map_entry: self.link_map_entry@,
            mem_map_entries: mem_views(self.mem_map_entries@),
        }
    }
}

/// The views of a sequence of memory mappings.
pub open spec fn mem_views(s: Seq<MemMapEntry>) -> Seq<MemMapView> {
    s.map_values(|e: MemMapEntry| e@)
}

/// The views of a sequence of link-map entries.
pub open spec fn link_views(s: Seq<LinkMapEntry>) -> Seq<LinkMapView> {
    s.map_values(|e: LinkMapEntry| e@)
}

/// The views of a sequence of library mappings.
pub open spec fn mappings_views(s: Seq<LinkedLibraryMappings>) -> Seq<LinkedMappingsView> {
    s.map_values(|e: LinkedLibraryMappings| e@)
}

/// A mapping that directly follows `prev` in address order continues the
/// same library: it maps the same file, or it is an anonymous zero mapping
/// (such as `.bss`).
pub open spec fn continues_library(prev: MemMapView, next: MemMapView) -> bool {
    next.pathname == prev.pathname || (next.inode == 0 && next.pathname is None)
}

/// Index of the first mapping at or after `pos` that does not start below
/// `addr` (or `mms.len()`).
pub open spec fn skip_below(mms: Seq<MemMapView>, pos: int, addr: usize) -> int
    decreases mms.len() - pos,
{
    if 0 <= pos < mms.len() && mms[pos].start < addr {
        skip_below(mms, pos + 1, addr)
    } else {
        pos
    }
}

/// End (exclusive) of the run of mappings that begins at `j` and continues
/// the same library.
pub open spec fn run_end(mms: Seq<MemMapView>, j: int) -> int
    decreases mms.len() - j,
{
    if 0 <= j && j + 1 < mms.len() && continues_library(mms[j], mms[j + 1]) {
        run_end(mms, j + 1)
    } else {
        j + 1
    }
}

/// The library mappings for the link-map entries from index `i` on, with the
/// memory mappings before index `pos` already consumed. Each library gets
/// the run of mappings that starts exactly at its load address; a library
/// for which no mapping starts there gets none; once all mappings are
/// consumed, the current library is the last one listed.
pub open spec fn match_regions(
    lms: Seq<LinkMapView>,
    mms: Seq<MemMapView>,
    i: int,
    pos: int,
) -> Seq<LinkedMappingsView>
    decreases lms.len() - i,
{
    if i < 0 || i >= lms.len() {
        seq![]
    } else {
        let e = lms[i];
        let j = skip_below(mms, pos, e.addr);
        if j < 0 || j >= mms.len() {
            seq![LinkedMappingsView { link_map_entry: e, mem_map_entries: seq![] }]
        } else if mms[j].start > e.addr {
            seq![LinkedMappingsView { link_map_entry: e, mem_map_entries: seq![] }]
                + match_regions(lms, mms, i + 1, j)
        } else {
            let k = run_end(mms, j);
            seq![LinkedMappingsView { link_map_entry: e, mem_map_entries: mms.subrange(j, k) }]
                + match_regions(lms, mms, i + 1, k)
        }
    }
}

pub proof fn lemma_skip_below_bounds(mms: Seq<MemMapView>, pos: int, addr: usize)
    requires
        0 <= pos <= mms.len(),
    ensures
        pos <= skip_below(mms, pos, addr) <= mms.len(),
        forall|k: int| pos <= k < skip_below(mms, pos, addr) ==> mms[k].start < addr,
        skip_below(mms, pos, addr) < mms.len() ==> mms[skip_below(mms, pos, addr)].start >= addr,
    decreases mms.len() - pos,
{
    if pos < mms.len() && mms[pos].start < addr {
        lemma_skip_below_bounds(mms, pos + 1, addr);
    }
}

pub proof fn lemma_run_end_bounds(mms: Seq<MemMapView>, j: int)
    requires
        0 <= j < mms.len(),
    ensures
        j < run_end(mms, j) <= mms.len(),
        forall|k: int| j < k < run_end(mms, j) ==> continues_library(mms[k - 1], #[trigger] mms[k]),
        run_end(mms, j) < mms.len() ==> !continues_library(
            mms[run_end(mms, j) - 1],
            mms[run_end(mms, j)],
        ),
    decreases mms.len() - j,
{
    if j + 1 < mms.len() && continues_library(mms[j], mms[j + 1]) {
        lemma_run_end_bounds(mms, j + 1);
    }
}

fn same_pathname(a: &Option<String>, b: &Option<String>) -> (r: bool)
    ensures
        r == (match a {
            Some(x) => Some(x@),
            None => None,
        } == match b {
            Some(x) => Some(x@),
            None => None,
        }),
{
    match (a, b) {
        (Some(x), Some(y)) => x.eq(y),
        (None, None) => true,
        _ => false,
    }
}

fn continues(prev: &MemMapEntry, next: &MemMapEntry) -> (r: bool)
    ensures
        r == continues_library(prev@, next@),
{
    same_pathname(&next.pathname, &prev.pathname) || (next.inode == 0
        && next.pathname.is_none())
}

/// Groups memory mappings by the loaded library they belong to. Both lists
/// are first sorted by address (stably, in place); then each link-map entry,
/// in address order, gets the run of mappings that starts exactly at its
/// load address and continues with mappings of the same file or anonymous
/// zero mappings.
pub fn match_link_map_mem_map_regions(
    link_map_entries: &mut Vec<LinkMapEntry>,
    mem_map_entries: &mut Vec<MemMapEntry>,
) -> (r: Vec<LinkedLibraryMappings>)
    ensures
        stably_sorted(old(link_map_entries)@, final(link_map_entries)@),
        stably_sorted(old(mem_map_entries)@, final(mem_map_entries)@),
        mappings_views(r@) == match_regions(
            link_views(final(link_map_entries)@),
            mem_views(final(mem_map_entries)@),
            0,
            0,
        ),
{
    let mut library_mappings: Vec<LinkedLibraryMappings> = Vec::with_capacity(
        link_map_entries.len(),
    );
    sort_by_key(link_map_entries);
    sort_by_key(mem_map_entries);
    let lms: &Vec<LinkMapEntry> = link_map_entries;
    let mms: &Vec<MemMapEntry> = mem_map_entries;
    let ghost lv = link_views(lms@);
    let ghost mv = mem_views(mms@);
    let ghost full = match_regions(lv, mv, 0, 0);
    let mut pos: usize = 0;
    let mut i: usize = 0;
    let mut done = false;
    while i < lms.len() && !done
        invariant
            lv == link_views(lms@),
            mv == mem_views(mms@),
            full == match_regions(lv, mv, 0, 0),
            i <= lms@.len(),
            pos <= mms@.len(),
            done ==> full == mappings_views(library_mappings@),
            !done ==> full == mappings_views(library_mappings@) + match_regions(
                lv,
                mv,
                i as int,
                pos as int,
            ),
        decreases lms@.len() - i,
    {
        let lm = &lms[i];
        let ghost e = lv[i as int];
        assert(e == lm@);
        let ghost old_views = mappings_views(library_mappings@);
        let ghost pos0 = pos as int;
        proof {
            lemma_skip_below_bounds(mv, pos0, lm.addr);
        }
        // Skip the mappings that start below this library's address.
        while pos < mms.len() && mms[pos].start < lm.addr
            invariant
                mv == mem_views(mms@),
                pos0 <= pos <= mms@.len(),
                skip_below(mv, pos0, lm.addr) == skip_below(mv, pos as int, lm.addr),
            decreases mms@.len() - pos,
        {
            pos = pos + 1;
        }
        let j = pos;
        assert(j == skip_below(mv, pos0, lm.addr));
        let ghost rest = match_regions(lv, mv, i as int, pos0);
        if j == mms.len() {
            let m = LinkedLibraryMappings { link_map_entry: lm.duplicate(), mem_map_entries: Vec::new() };
            proof {
                assert(mem_views(m.mem_map_entries@) =~= Seq::<MemMapView>::empty());
                assert(rest == seq![LinkedMappingsView { link_map_entry: e, mem_map_entries: seq![] }]);
                assert(mappings_views(library_mappings@.push(m)) =~= old_views.push(m@));
                assert(old_views + rest =~= old_views.push(m@));
            }
            library_mappings.push(m);
            done = true;
        } else if mms[j].start > lm.addr {
            let m = LinkedLibraryMappings { link_map_entry: lm.duplicate(), mem_map_entries: Vec::new() };
            proof {
                assert(mem_views(m.mem_map_entries@) =~= Seq::<MemMapView>::empty());
                assert(rest == seq![LinkedMappingsView { link_map_entry: e, mem_map_entries: seq![] }]
                    + match_regions(lv, mv, i + 1, j as int));
                assert(mappings_views(library_mappings@.push(m)) =~= old_views.push(m@));
                assert(old_views + rest =~= old_views.push(m@) + match_regions(lv, mv, i + 1, j as int));
            }
            library_mappings.push(m);
        } else {
            proof {
                lemma_run_end_bounds(mv, j as int);
            }
            let mut entries: Vec<MemMapEntry> = Vec::new();
            entries.push(mms[j].duplicate());
            pos = j + 1;
            assert(mem_views(entries@) =~= mv.subrange(j as int, pos as int));
            while pos < mms.len() && continues(&mms[pos - 1], &mms[pos])
                invariant
                    mv == mem_views(mms@),
                    j < pos <= mms@.len(),
                    run_end(mv, j as int) == run_end(mv, pos - 1),
                    mem_views(entries@) == mv.subrange(j as int, pos as int),
                decreases mms@.len() - pos,
            {
                let d = mms[pos].duplicate();
                proof {
                    assert(d@ == mv[pos as int]);
                    assert(mem_views(entries@.push(d)) =~= mem_views(entries@).push(d@));
                    assert(mem_views(entries@.push(d)) =~= mv.subrange(j as int, pos + 1));
                }
                entries.push(d);
                pos = pos + 1;
            }
            assert(pos == run_end(mv, j as int));
            let m = LinkedLibraryMappings { link_map_entry: lm.duplicate(), mem_map_entries: entries };
            proof {
                assert(rest == seq![LinkedMappingsView { link_map_entry: e, mem_map_entries: mv.subrange(j as int, pos as int) }]
                    + match_regions(lv, mv, i + 1, pos as int));
                assert(mappings_views(library_mappings@.push(m)) =~= old_views.push(m@));
                assert(old_views + rest =~= old_views.push(m@) + match_regions(lv, mv, i + 1, pos as int));
            }
            library_mappings.push(m);
        }
        i = i + 1;
    }
    proof {
        if !done {
            assert(match_regions(lv, mv, i as int, pos as int) =~= Seq::<LinkedMappingsView>::empty());
            assert(full =~= mappings_views(library_mappings@));
        }
    }
    library_mappings
}

/// Some entry of `entries` is loaded at `addr`.
pub open spec fn has_addr(entries: Seq<LinkMapView>, addr: usize) -> bool {
    exists|k: int| 0 <= k < entries.len() && #[trigger] entries[k].addr == addr
}

/// The entries of `entries` whose load address no entry of `others` has,
/// in their order.
pub open spec fn exclusive_views(entries: Seq<LinkMapView>, others: Seq<LinkMapView>) -> Seq<
    LinkMapView,
> {
    entries.filter(|e: LinkMapView| !has_addr(others, e.addr))
}

/// The entries of `entries` whose load address some entry of `others` has,
/// in their order.
pub open spec fn shared_views(entries: Seq<LinkMapView>, others: Seq<LinkMapView>) -> Seq<
    LinkMapView,
> {
    entries.filter(|e: LinkMapView| has_addr(others, e.addr))
}

fn contains_addr(others: &Vec<LinkMapEntry>, addr: usize) -> (b: bool)
    ensures
        b == has_addr(link_views(others@), addr),
{
    let ghost ov = link_views(others@);
    let mut k: usize = 0;
    while k < others.len()
        invariant
            ov == link_views(others@),
            k <= others@.len(),
            forall|a: int| 0 <= a < k ==> #[trigger] ov[a].addr != addr,
        decreases others@.len() - k,
    {
        if others[k].addr == addr {
            assert(ov[k as int].addr == addr);
            return true;
        }
        k = k + 1;
    }
    false
}

fn select_by_presence(entries: &Vec<LinkMapEntry>, others: &Vec<LinkMapEntry>, present: bool) -> (r:
    Vec<LinkMapEntry>)
    ensures
        link_views(r@) == link_views(entries@).filter(
            |e: LinkMapView| has_addr(link_views(others@), e.addr) == present,
        ),
{
    let ghost ev = link_views(entries@);
    let ghost ov = link_views(others@);
    let ghost pred = |e: LinkMapView| has_addr(ov, e.addr) == present;
    let mut r: Vec<LinkMapEntry> = Vec::new();
    let mut i: usize = 0;
    assert(ev.subrange(0, 0) =~= Seq::<LinkMapView>::empty());
    proof {
        reveal(Seq::filter);
    }
    while i < entries.len()
        invariant
            ev == link_views(entries@),
            ov == link_views(others@),
            pred == (|e: LinkMapView| has_addr(ov, e.addr) == present),
            i <= entries@.len(),
            link_views(r@) == ev.subrange(0, i as int).filter(pred),
        decreases entries@.len() - i,
    {
        let e = &entries[i];
        let hit = contains_addr(others, e.addr);
        proof {
            reveal(Seq::filter);
            let pre = ev.subrange(0, i + 1);
            assert(pre.drop_last() =~= ev.subrange(0, i as int));
            assert(pre.last() == e@);
        }
        if hit == present {
            let d = e.duplicate();
            proof {
                assert(link_views(r@.push(d)) =~= link_views(r@).push(d@));
            }
            r.push(d);
        }
        i = i + 1;
    }
    assert(ev.subrange(0, i as int) =~= ev);
    r
}

/// The entries of `entries` that are not loaded at the address of any entry
/// of `others`, in their order.
pub fn exclusive_link_map_entries(entries: &Vec<LinkMapEntry>, others: &Vec<LinkMapEntry>) -> (r:
    Vec<LinkMapEntry>)
    ensures
        link_views(r@) == exclusive_views(link_views(entries@), link_views(others@)),
{
    let r = select_by_presence(entries, others, false);
    assert((|e: LinkMapView| has_addr(link_views(others@), e.addr) == false) =~= (|e: LinkMapView|
        !has_addr(link_views(others@), e.addr)));
    r
}

/// The entries of `entries` that are loaded at the address of some entry of
/// `others`, in their order.
pub fn shared_link_map_entries(entries: &Vec<LinkMapEntry>, others: &Vec<LinkMapEntry>) -> (r: Vec<
    LinkMapEntry,
>)
    ensures
        link_views(r@) == shared_views(link_views(entries@), link_views(others@)),
{
    let r = select_by_presence(entries, others, true);
    assert((|e: LinkMapView| has_addr(link_views(others@), e.addr) == true) =~= (|e: LinkMapView|
        has_addr(link_views(others@), e.addr)));
    r
}

/// Each library of the grouping is the next link-map entry in order; a
/// library that got mappings gets a run that starts exactly at its load
/// address, and each further mapping of the run continues the library.
pub proof fn lemma_match_regions_shape(
    lms: Seq<LinkMapView>,
    mms: Seq<MemMapView>,
    i: int,
    pos: int,
)
    requires
        0 <= i <= lms.len(),
        0 <= pos <= mms.len(),
    ensures
        match_regions(lms, mms, i, pos).len() <= lms.len() - i,
        forall|k: int|
            0 <= k < match_regions(lms, mms, i, pos).len() ==> (#[trigger] match_regions(
                lms,
                mms,
                i,
                pos,
            )[k]).link_map_entry == lms[i + k],
        forall|k: int|
            0 <= k < match_regions(lms, mms, i, pos).len() && (#[trigger] match_regions(
                lms,
                mms,
                i,
                pos,
            )[k]).mem_map_entries.len() > 0 ==> match_regions(lms, mms, i, pos)[k].mem_map_entries[0].start
                == match_regions(lms, mms, i, pos)[k].link_map_entry.addr,
        forall|k: int, m: int|
            0 <= k < match_regions(lms, mms, i, pos).len() && 0 < m < match_regions(
                lms,
                mms,
                i,
                pos,
            )[k].mem_map_entries.len() ==> continues_library(
                match_regions(lms, mms, i, pos)[k].mem_map_entries[m - 1],
                #[trigger] match_regions(lms, mms, i, pos)[k].mem_map_entries[m],
            ),
    decreases lms.len() - i,
{
    let r = match_regions(lms, mms, i, pos);
    if i < lms.len() {
        let e = lms[i];
        lemma_skip_below_bounds(mms, pos, e.addr);
        let j = skip_below(mms, pos, e.addr);
        if j >= mms.len() {
        } else if mms[j].start > e.addr {
            lemma_match_regions_shape(lms, mms, i + 1, j);
            let rest = match_regions(lms, mms, i + 1, j);
            assert forall|k: int| 1 <= k < r.len() implies r[k] == rest[k - 1] by {}
        } else {
            lemma_run_end_bounds(mms, j);
            let kk = run_end(mms, j);
            lemma_match_regions_shape(lms, mms, i + 1, kk);
            let rest = match_regions(lms, mms, i + 1, kk);
            assert forall|k: int| 1 <= k < r.len() implies r[k] == rest[k - 1] by {}
            let run = mms.subrange(j, kk);
            assert(r[0].mem_map_entries == run);
            assert forall|m: int| 0 < m < run.len() implies continues_library(run[m - 1], #[trigger] run[m]) by {
                assert(run[m] == mms[j + m]);
                assert(run[m - 1] == mms[j + m - 1]);
            }
        }
    }
}

/// Every entry is either exclusive to `entries` or shared with `others`:
/// the exclusive entries have no address of `others`, the shared ones do,
/// and together they count all entries.
pub proof fn lemma_exclusive_shared_partition(entries: Seq<LinkMapView>, others: Seq<LinkMapView>)
    ensures
        exclusive_views(entries, others).len() + shared_views(entries, others).len()
            == entries.len(),
        forall|k: int|
            0 <= k < exclusive_views(entries, others).len() ==> !has_addr(
                others,
                (#[trigger] exclusive_views(entries, others)[k]).addr,
            ),
        forall|k: int|
            0 <= k < shared_views(entries, others).len() ==> has_addr(
                others,
                (#[trigger] shared_views(entries, others)[k]).addr,
            ),
    decreases entries.len(),
{
    reveal(Seq::filter);
    if entries.len() > 0 {
        let prev = entries.drop_last();
        lemma_exclusive_shared_partition(prev, others);
        let ex = exclusive_views(entries, others);
        let sh = shared_views(entries, others);
        let pex = exclusive_views(prev, others);
        let psh = shared_views(prev, others);
        assert forall|k: int| 0 <= k < ex.len() implies !has_addr(others, (#[trigger] ex[k]).addr) by {
            if k < pex.len() {
                assert(ex[k] == pex[k]);
            }
        }
        assert forall|k: int| 0 <= k < sh.len() implies has_addr(others, (#[trigger] sh[k]).addr) by {
            if k < psh.len() {
                assert(sh[k] == psh[k]);
            }
        }
    }
}

/// The index ranges of the memory map that `match_regions` hands to each
/// library (an empty range where a library gets no mappings).
pub open spec fn match_positions(
    lms: Seq<LinkMapView>,
    mms: Seq<MemMapView>,
    i: int,
    pos: int,
) -> Seq<(int, int)>
    decreases lms.len() - i,
{
    if i < 0 || i >= lms.len() {
        seq![]
    } else {
        let e = lms[i];
        let j = skip_below(mms, pos, e.addr);
        if j < 0 || j >= mms.len() {
            seq![(j, j)]
        } else if mms[j].start > e.addr {
            seq![(j, j)] + match_positions(lms, mms, i + 1, j)
        } else {
            let k = run_end(mms, j);
            seq![(j, k)] + match_positions(lms, mms, i + 1, k)
        }
    }
}

/// No memory mapping goes to two libraries: each library gets a contiguous
/// index range of the memory map, which a library with mappings holds up
/// to the end of the run, and the ranges of different libraries follow
/// each other without overlap.
pub proof fn lemma_match_regions_disjoint(
    lms: Seq<LinkMapView>,
    mms: Seq<MemMapView>,
    i: int,
    pos: int,
)
    requires
        0 <= i <= lms.len(),
        0 <= pos <= mms.len(),
    ensures
        match_positions(lms, mms, i, pos).len() == match_regions(lms, mms, i, pos).len(),
        forall|k: int|
            0 <= k < match_positions(lms, mms, i, pos).len() ==> pos <= (
            #[trigger] match_positions(lms, mms, i, pos)[k]).0 <= match_positions(
                lms,
                mms,
                i,
                pos,
            )[k].1 <= mms.len() && match_regions(lms, mms, i, pos)[k].mem_map_entries
                == mms.subrange(
                match_positions(lms, mms, i, pos)[k].0,
                match_positions(lms, mms, i, pos)[k].1,
            ) && (match_positions(lms, mms, i, pos)[k].0 < match_positions(lms, mms, i, pos)[k].1
                ==> match_positions(lms, mms, i, pos)[k].1 == run_end(
                mms,
                match_positions(lms, mms, i, pos)[k].0,
            )),
        forall|k1: int, k2: int|
            0 <= k1 < k2 < match_positions(lms, mms, i, pos).len() ==> (
            #[trigger] match_positions(lms, mms, i, pos)[k1]).1 <= (
            #[trigger] match_positions(lms, mms, i, pos)[k2]).0,
    decreases lms.len() - i,
{
    let r = match_regions(lms, mms, i, pos);
    let q = match_positions(lms, mms, i, pos);
    if i < lms.len() {
        let e = lms[i];
        lemma_skip_below_bounds(mms, pos, e.addr);
        let j = skip_below(mms, pos, e.addr);
        if j >= mms.len() {
            assert(r[0].mem_map_entries =~= mms.subrange(j, j));
        } else {
            let next = if mms[j].start > e.addr {
                j
            } else {
                lemma_run_end_bounds(mms, j);
                run_end(mms, j)
            };
            lemma_match_regions_disjoint(lms, mms, i + 1, next);
            let rr = match_regions(lms, mms, i + 1, next);
            let qq = match_positions(lms, mms, i + 1, next);
            assert(q[0] == (j, next));
            assert(r[0].mem_map_entries =~= mms.subrange(j, next));
            assert forall|k: int| 1 <= k < q.len() implies q[k] == qq[k - 1] && r[k] == rr[k - 1] by {}
            assert forall|k1: int, k2: int| 0 <= k1 < k2 < q.len() implies (#[trigger] q[k1]).1 <= (
            #[trigger] q[k2]).0 by {
                if k1 > 0 {
                    assert(qq[k1 - 1].1 <= qq[k2 - 1].0);
                } else {
                    assert(next <= qq[k2 - 1].0);
                }
            }
        }
    }
}


/// The link-map entries are in ascending order of load address.
pub open spec fn addrs_ascending(lms: Seq<LinkMapView>) -> bool {
    forall|a: int, b: int| 0 <= a <= b < lms.len() ==> lms[a].addr <= lms[b].addr
}

/// The memory mappings are in ascending order of start address.
pub open spec fn starts_ascending(mms: Seq<MemMapView>) -> bool {
    forall|a: int, b: int| 0 <= a <= b < mms.len() ==> mms[a].start <= mms[b].start
}

/// One of the first `upto` libraries of `r` got the mapping `m`.
pub open spec fn grouped_before(r: Seq<LinkedMappingsView>, upto: int, m: MemMapView) -> bool {
    exists|k: int, x: int|
        0 <= k < upto && k < r.len() && 0 <= x < r[k].mem_map_entries.len()
            && #[trigger] r[k].mem_map_entries[x] == m
}

/// What the grouping `r` of the libraries from index `i` on, with the
/// mappings before `pos` consumed, leaves out: the grouping ends early only
/// at a library without mappings, after which every remaining mapping at or
/// above that library's address has gone to some library; and a library
/// whose address is the start of a mapping that no earlier library got
/// gets a run.
pub open spec fn complete_from(
    lms: Seq<LinkMapView>,
    mms: Seq<MemMapView>,
    i: int,
    pos: int,
    r: Seq<LinkedMappingsView>,
) -> bool {
    &&& r.len() < lms.len() - i ==> {
        &&& r.len() > 0
        &&& r[r.len() - 1].mem_map_entries.len() == 0
        &&& forall|j: int|
            pos <= j < mms.len() && mms[j].start >= lms[i + r.len() - 1].addr ==> grouped_before(
                r,
                r.len() as int,
                #[trigger] mms[j],
            )
    }
    &&& forall|k: int, j: int|
        #![trigger grouped_before(r, k, mms[j])]
        0 <= k < r.len() && pos <= j < mms.len() && mms[j].start == lms[i + k].addr
            && !grouped_before(r, k, mms[j]) ==> r[k].mem_map_entries.len() > 0
}

/// `match_regions` on address-ordered inputs leaves out nothing that
/// `complete_from` describes.
#[verifier::spinoff_prover]
#[verifier::rlimit(50)]
pub proof fn lemma_match_regions_complete(
    lms: Seq<LinkMapView>,
    mms: Seq<MemMapView>,
    i: int,
    pos: int,
)
    requires
        addrs_ascending(lms),
        starts_ascending(mms),
        0 <= i <= lms.len(),
        0 <= pos <= mms.len(),
    ensures
        complete_from(lms, mms, i, pos, match_regions(lms, mms, i, pos)),
    decreases lms.len() - i,
{
    let r = match_regions(lms, mms, i, pos);
    lemma_match_regions_shape(lms, mms, i, pos);
    if i < lms.len() {
        let e = lms[i];
        lemma_skip_below_bounds(mms, pos, e.addr);
        let j0 = skip_below(mms, pos, e.addr);
        if j0 >= mms.len() {
            assert(r.len() == 1);
            assert forall|k: int, j: int|
                #![trigger grouped_before(r, k, mms[j])]
                0 <= k < r.len() && pos <= j < mms.len() && mms[j].start == lms[i + k].addr
                    && !grouped_before(r, k, mms[j]) implies r[k].mem_map_entries.len() > 0 by {
                assert(mms[j].start < e.addr);
            }
            if r.len() < lms.len() - i {
                assert forall|j: int|
                    pos <= j < mms.len() && mms[j].start >= lms[i + r.len() - 1].addr implies grouped_before(
                    r,
                    r.len() as int,
                    #[trigger] mms[j],
                ) by {
                    assert(mms[j].start < e.addr);
                }
            }
        } else {
            let gap = mms[j0].start > e.addr;
            let next = if gap {
                j0
            } else {
                lemma_run_end_bounds(mms, j0);
                run_end(mms, j0)
            };
            lemma_match_regions_complete(lms, mms, i + 1, next);
            let rest = match_regions(lms, mms, i + 1, next);
            assert(r.len() == rest.len() + 1);
            assert forall|k: int| 1 <= k < r.len() implies #[trigger] r[k] == rest[k - 1] by {}
            assert(r[0].mem_map_entries == mms.subrange(j0, next));
            // A mapping that some library of `rest` got, one of `r` got.
            assert forall|up: int, m: MemMapView| #[trigger]
                grouped_before(rest, up, m) implies grouped_before(r, up + 1, m) by {
                let (k, x) = choose|k: int, x: int|
                    0 <= k < up && k < rest.len() && 0 <= x < rest[k].mem_map_entries.len()
                        && #[trigger] rest[k].mem_map_entries[x] == m;
                assert(r[k + 1] == rest[k]);
                assert(r[k + 1].mem_map_entries[x] == m);
            }
            // A mapping of the run of library `i`, every later library sees
            // as taken.
            assert forall|up: int, j: int|
                1 <= up && j0 <= j < next implies #[trigger] grouped_before(r, up, mms[j]) by {
                assert(r[0].mem_map_entries[j - j0] == mms[j]);
            }
            // What a later library of `r` counts as taken, `rest` counts so
            // too, for mappings beyond the run.
            assert forall|k: int, j: int|
                1 <= k && next <= j < mms.len() && !#[trigger] grouped_before(r, k, mms[j])
                    implies !grouped_before(rest, k - 1, mms[j]) by {
                if grouped_before(rest, k - 1, mms[j]) {
                    assert(grouped_before(r, k, mms[j]));
                }
            }
            assert forall|k: int, j: int|
                #![trigger grouped_before(r, k, mms[j])]
                0 <= k < r.len() && pos <= j < mms.len() && mms[j].start == lms[i + k].addr
                    && !grouped_before(r, k, mms[j]) implies r[k].mem_map_entries.len() > 0 by {
                if k == 0 {
                    if gap {
                        if j >= j0 {
                            assert(mms[j0].start <= mms[j].start);
                        }
                    }
                } else {
                    assert(lms[i].addr <= lms[i + k].addr);
                    if j >= next {
                        assert(!grouped_before(rest, k - 1, mms[j]));
                        assert(rest[k - 1].mem_map_entries.len() > 0);
                    } else if j >= j0 {
                        assert(grouped_before(r, k, mms[j]));
                    }
                }
            }
            if r.len() < lms.len() - i {
                assert(r[r.len() - 1] == rest[rest.len() - 1]);
                assert forall|j: int|
                    pos <= j < mms.len() && mms[j].start >= lms[i + r.len() - 1].addr implies grouped_before(
                    r,
                    r.len() as int,
                    #[trigger] mms[j],
                ) by {
                    assert(lms[i].addr <= lms[i + r.len() - 1].addr);
                    if j >= next {
                        assert(grouped_before(rest, rest.len() as int, mms[j]));
                    } else if j >= j0 {
                        assert(grouped_before(r, r.len() as int, mms[j]));
                    }
                }
            }
        }
    }
}

/// Grouping the mappings by library, for any link map and memory map:
/// each library of the result is the next link-map entry in address order;
/// a library whose load address is the start of a mapping that no earlier
/// library got receives a run that begins at that address, whatever came
/// before it; the result ends before the last library only at a library
/// that got nothing, once every mapping at or above that library's address
/// has gone to some library; and a mapping joins the run of the mapping
/// before it only if it maps the same pathname, or has inode 0 and no
/// pathname.
pub proof fn lemma_match_link_map_mem_map_regions(
    old_lm: Seq<LinkMapEntry>,
    old_mm: Seq<MemMapEntry>,
    lm: Seq<LinkMapEntry>,
    mm: Seq<MemMapEntry>,
    r: Seq<LinkedLibraryMappings>,
)
    requires
        stably_sorted(old_lm, lm),
        stably_sorted(old_mm, mm),
        mappings_views(r) == match_regions(link_views(lm), mem_views(mm), 0, 0),
    ensures
        r.len() <= lm.len(),
        forall|k: int| 0 <= k < r.len() ==> (#[trigger] r[k]).link_map_entry@ == lm[k]@,
        r.len() < lm.len() ==> {
            &&& r.len() > 0
            &&& r[r.len() - 1].mem_map_entries.len() == 0
            &&& forall|j: int|
                0 <= j < mm.len() && mm[j].start >= lm[r.len() - 1].addr ==> grouped_before(
                    mappings_views(r),
                    r.len() as int,
                    #[trigger] mm[j]@,
                )
        },
        forall|k: int, j: int|
            #![trigger grouped_before(mappings_views(r), k, mm[j]@)]
            0 <= k < lm.len() && 0 <= j < mm.len() && mm[j].start == lm[k].addr
                && !grouped_before(mappings_views(r), k, mm[j]@) ==> k < r.len()
                && r[k].mem_map_entries.len() > 0 && r[k].mem_map_entries[0].start == lm[k].addr,
        forall|k: int|
            0 <= k < r.len() && (#[trigger] r[k]@).mem_map_entries.len() > 0 ==> exists|
                lo: int,
                hi: int,
            |
                #![trigger mem_views(mm).subrange(lo, hi)]
                0 <= lo < hi <= mm.len() && r[k]@.mem_map_entries == mem_views(mm).subrange(lo, hi)
                    && (hi < mm.len() ==> !(mm[hi - 1]@.pathname == mm[hi]@.pathname || (
                mm[hi]@.inode == 0 && mm[hi]@.pathname is None))),
        forall|k: int, m: int|
            0 <= k < r.len() && 0 < m < r[k]@.mem_map_entries.len() ==> {
                let prev = r[k]@.mem_map_entries[m - 1];
                let next = #[trigger] r[k]@.mem_map_entries[m];
                prev.pathname == next.pathname || (next.inode == 0 && next.pathname is None)
            },
{
    let lv = link_views(lm);
    let mv = mem_views(mm);
    let rv = mappings_views(r);
    assert(sorted_by_key(lm) && sorted_by_key(mm));
    assert forall|a: int, b: int| 0 <= a <= b < lv.len() implies lv[a].addr <= lv[b].addr by {
        if a < b {
            assert(lm[a].sort_key() <= lm[b].sort_key());
        }
    }
    assert forall|a: int, b: int| 0 <= a <= b < mv.len() implies mv[a].start <= mv[b].start by {
        if a < b {
            assert(mm[a].sort_key() <= mm[b].sort_key());
        }
    }
    lemma_match_regions_complete(lv, mv, 0, 0);
    lemma_match_regions_shape(lv, mv, 0, 0);
    lemma_match_regions_disjoint(lv, mv, 0, 0);
    let q = match_positions(lv, mv, 0, 0);
    assert forall|k: int|
        0 <= k < r.len() && (#[trigger] r[k]@).mem_map_entries.len() > 0 implies exists|
            lo: int,
            hi: int,
        |
            #![trigger mem_views(mm).subrange(lo, hi)]
            0 <= lo < hi <= mm.len() && r[k]@.mem_map_entries == mem_views(mm).subrange(lo, hi) && (
            hi < mm.len() ==> !(mm[hi - 1]@.pathname == mm[hi]@.pathname || (mm[hi]@.inode == 0
                && mm[hi]@.pathname is None))) by {
        assert(rv[k] == r[k]@);
        let lo = q[k].0;
        let hi = q[k].1;
        assert(rv[k].mem_map_entries == mv.subrange(lo, hi));
        assert(lo < hi);
        lemma_run_end_bounds(mv, lo);
        if hi < mm.len() {
            assert(mv[hi - 1] == mm[hi - 1]@);
            assert(mv[hi] == mm[hi]@);
        }
        assert(mem_views(mm).subrange(lo, hi) == mv.subrange(lo, hi));
    }
    assert(rv.len() == r.len());
    assert forall|k: int| 0 <= k < r.len() implies (#[trigger] r[k]).link_map_entry@ == lm[k]@ by {
        assert(rv[k] == r[k]@);
    }
    if r.len() < lm.len() {
        assert(rv[r.len() - 1] == r[r.len() - 1]@);
        assert forall|j: int|
            0 <= j < mm.len() && mm[j].start >= lm[r.len() - 1].addr implies grouped_before(
            rv,
            r.len() as int,
            #[trigger] mm[j]@,
        ) by {
            assert(mv[j] == mm[j]@);
        }
    }
    assert forall|k: int, j: int|
        #![trigger grouped_before(rv, k, mm[j]@)]
        0 <= k < lm.len() && 0 <= j < mm.len() && mm[j].start == lm[k].addr && !grouped_before(
            rv,
            k,
            mm[j]@,
        ) implies k < r.len() && r[k].mem_map_entries.len() > 0 && r[k].mem_map_entries[0].start
        == lm[k].addr by {
        assert(mv[j] == mm[j]@);
        assert(lv[k] == lm[k]@);
        if k >= r.len() {
            assert(lv[r.len() - 1].addr <= lv[k].addr);
            assert(grouped_before(rv, r.len() as int, mv[j]));
            let (k2, x) = choose|k2: int, x: int|
                0 <= k2 < r.len() && k2 < rv.len() && 0 <= x < rv[k2].mem_map_entries.len()
                    && #[trigger] rv[k2].mem_map_entries[x] == mv[j];
            assert(rv[k2].mem_map_entries[x] == mv[j]);
            assert(grouped_before(rv, k, mv[j]));
        }
        assert(grouped_before(rv, k, mv[j]) == grouped_before(rv, k, mm[j]@));
        assert(rv[k] == r[k]@);
        assert(rv[k].mem_map_entries.len() > 0);
        assert(rv[k].mem_map_entries[0] == r[k].mem_map_entries[0]@);
    }
    assert forall|k: int, m: int|
        0 <= k < r.len() && 0 < m < r[k]@.mem_map_entries.len() implies {
            let prev = r[k]@.mem_map_entries[m - 1];
            let next = #[trigger] r[k]@.mem_map_entries[m];
            prev.pathname == next.pathname || (next.inode == 0 && next.pathname is None)
        } by {
        assert(rv[k] == r[k]@);
        assert(continues_library(rv[k].mem_map_entries[m - 1], rv[k].mem_map_entries[m]));
    }
}


/// The load addresses of `entries`, in their order.
pub open spec fn load_addrs(entries: Seq<LinkMapView>) -> Seq<usize> {
    entries.map_values(|e: LinkMapView| e.addr)
}

/// An entry is exclusive to `entries` exactly when it is one of them and
/// its load address is none of the load addresses of `others`, the last
/// one included; it is shared exactly when it is one of `entries` and its
/// load address is one of those of `others`.
pub proof fn lemma_exclusive_shared_membership(
    entries: Seq<LinkMapView>,
    others: Seq<LinkMapView>,
    x: LinkMapView,
)
    ensures
        exclusive_views(entries, others) == entries.filter(
            |e: LinkMapView| !load_addrs(others).contains(e.addr),
        ),
        shared_views(entries, others) == entries.filter(
            |e: LinkMapView| load_addrs(others).contains(e.addr),
        ),
        exclusive_views(entries, others).contains(x) <==> (entries.contains(x) && !load_addrs(
            others,
        ).contains(x.addr)),
        shared_views(entries, others).contains(x) <==> (entries.contains(x) && load_addrs(
            others,
        ).contains(x.addr)),
{
    let la = load_addrs(others);
    assert forall|a: usize| #[trigger] has_addr(others, a) <==> la.contains(a) by {
        if has_addr(others, a) {
            let k = choose|k: int| 0 <= k < others.len() && #[trigger] others[k].addr == a;
            assert(la[k] == a);
        }
        if la.contains(a) {
            let k = choose|k: int| 0 <= k < la.len() && la[k] == a;
            assert(others[k].addr == a);
        }
    }
    let ex_pred = |e: LinkMapView| !has_addr(others, e.addr);
    let sh_pred = |e: LinkMapView| has_addr(others, e.addr);
    assert(exclusive_views(entries, others) == entries.filter(ex_pred));
    assert(shared_views(entries, others) == entries.filter(sh_pred));
    assert(ex_pred =~= (|e: LinkMapView| !la.contains(e.addr)));
    assert(sh_pred =~= (|e: LinkMapView| la.contains(e.addr)));
    if entries.contains(x) {
        let i = choose|i: int| 0 <= i < entries.len() && entries[i] == x;
        if ex_pred(x) {
            entries.lemma_filter_contains(ex_pred, i);
        }
        if sh_pred(x) {
            entries.lemma_filter_contains(sh_pred, i);
        }
    }
    if entries.filter(ex_pred).contains(x) {
        entries.lemma_filter_contains_rev(ex_pred, x);
        let i = choose|i: int| 0 <= i < entries.filter(ex_pred).len() && entries.filter(ex_pred)[i] == x;
        entries.lemma_filter_pred(ex_pred, i);
    }
    if entries.filter(sh_pred).contains(x) {
        entries.lemma_filter_contains_rev(sh_pred, x);
        let i = choose|i: int| 0 <= i < entries.filter(sh_pred).len() && entries.filter(sh_pred)[i] == x;
        entries.lemma_filter_pred(sh_pred, i);
    }
}

} // verus!
