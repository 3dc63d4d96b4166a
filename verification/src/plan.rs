//! Which memory mappings a new runtime instance assigns to which protection
//! key, decided from the link maps of the runtime's namespace and of the
//! main program, and from the process memory map.
use vstd::prelude::*;
use crate::maps::{MemMapEntry, MemMapView};
use crate::linkmap::{
    LinkMapEntry, LinkMapView, LinkedLibraryMappings, LinkedMappingsView, link_views, mem_views,
    mappings_views, match_regions, exclusive_views, shared_views, match_link_map_mem_map_regions,
    exclusive_link_map_entries, shared_link_map_entries,
};
use crate::sort::{
    SortKey, stably_sorted, stable_rearrangement, lemma_stable_sort_of_sorted,
    lemma_stable_sort_permutation_unique,
};

verus! {

/// The mappings to protect, grouped by the key they receive.
pub struct ProtectionPlan {
    /// Libraries of the runtime's namespace only: the library's key.
    pub foreign: Vec<LinkedLibraryMappings>,
    /// Libraries of the main program only: Rust's key, where Rust has one
    /// (and empty otherwise).
    pub main_program: Vec<LinkedLibraryMappings>,
    /// Libraries that both namespaces share: the globally read-only key.
    pub shared: Vec<LinkedLibraryMappings>,
    /// The vDSO mapping, if there is one: the library's key.
    pub vdso: Option<MemMapEntry>,
}

/// The pathname under which the kernel lists the vDSO.
pub open spec fn vdso_name() -> Seq<char> {
    seq!['[', 'v', 'd', 's', 'o', ']']
}

/// The mapping is the vDSO.
pub open spec fn is_vdso(m: MemMapView) -> bool {
    m.pathname == Some(vdso_name())
}

/// A mapping is the vDSO exactly when its pathname is the string
/// `"[vdso]"`: no other pathname, such as `"[vvar]"` or `"[vsyscall]"`,
/// counts.
pub proof fn lemma_vdso_name()
    ensures
        forall|m: MemMapView| #[trigger] is_vdso(m) <==> m.pathname == Some("[vdso]"@),
{
    reveal_strlit("[vdso]");
    assert("[vdso]"@ =~= vdso_name());
}

/// Index `k` holds the first vDSO mapping of `mv`.
pub open spec fn first_vdso_at(mv: Seq<MemMapView>, k: int) -> bool {
    &&& 0 <= k < mv.len()
    &&& is_vdso(mv[k])
    &&& forall|j: int| 0 <= j < k ==> !is_vdso(#[trigger] mv[j])
}

/// `r` is what `match_link_map_mem_map_regions` gives for link-map entries
/// whose views are `entries` and the memory map `mv`: the grouping of `mv`
/// along a stable sort of the entries by address.
pub open spec fn grouped(
    entries: Seq<LinkMapView>,
    mv: Seq<MemMapView>,
    r: Seq<LinkedMappingsView>,
) -> bool {
    exists|ex: Seq<LinkMapEntry>, sl: Seq<LinkMapEntry>|
        {
            &&& link_views(ex) == entries
            &&& #[trigger] stably_sorted(ex, sl)
            &&& r == match_regions(link_views(sl), mv, 0, 0)
        }
}

/// The first mapping of `mmaps` whose pathname is `"[vdso]"`.
pub fn find_vdso(mmaps: &Vec<MemMapEntry>) -> (r: Option<MemMapEntry>)
    ensures
        match r {
            Some(e) => exists|k: int| #[trigger] first_vdso_at(mem_views(mmaps@), k) && e@ == mem_views(mmaps@)[k],
            None => forall|k: int| 0 <= k < mmaps@.len() ==> !is_vdso(#[trigger] mem_views(mmaps@)[k]),
        },
        match r {
            Some(e) => e@.pathname == Some("[vdso]"@) && exists|k: int|
                0 <= k < mmaps@.len() && #[trigger] mem_views(mmaps@)[k] == e@ && forall|j: int|
                    0 <= j < k ==> (#[trigger] mem_views(mmaps@)[j]).pathname != Some("[vdso]"@),
            None => forall|k: int|
                0 <= k < mmaps@.len() ==> (#[trigger] mem_views(mmaps@)[k]).pathname != Some(
                    "[vdso]"@,
                ),
        },
{
    proof {
        lemma_vdso_name();
    }
    let ghost mv = mem_views(mmaps@);
    let name = String::from_str("[vdso]");
    proof {
        reveal_strlit("[vdso]");
        assert(name@ =~= vdso_name());
    }
    let mut k: usize = 0;
    while k < mmaps.len()
        invariant
            mv == mem_views(mmaps@),
            name@ == vdso_name(),
            k <= mmaps@.len(),
            forall|j: int| 0 <= j < k ==> !is_vdso(#[trigger] mv[j]),
        decreases mmaps@.len() - k,
    {
        let hit = match &mmaps[k].pathname {
            Some(p) => p.eq(&name),
            None => false,
        };
        assert(mv[k as int] == mmaps@[k as int]@);
        if hit {
            let e = mmaps[k].duplicate();
            assert(first_vdso_at(mv, k as int));
            proof {
                lemma_vdso_name();
            }
            assert(mv[k as int] == e@);
            assert(forall|j: int| 0 <= j < k ==> (#[trigger] mv[j]).pathname != Some("[vdso]"@));
            return Some(e);
        }
        k = k + 1;
    }
    None
}

/// Decides which mappings a new runtime instance protects with which key.
/// The runtime namespace's own libraries, the main program's own libraries
/// (only where Rust has a key), and the libraries both share are each
/// grouped with `match_link_map_mem_map_regions` against the memory map,
/// which ends up sorted by start address; the vDSO is looked up in the
/// sorted memory map.
pub fn plan_protections(
    rt_lm_entries: &Vec<LinkMapEntry>,
    main_program_lm_entries: &Vec<LinkMapEntry>,
    mmaps: &mut Vec<MemMapEntry>,
    has_pkey_rust: bool,
) -> (plan: ProtectionPlan)
    ensures
        stably_sorted(old(mmaps)@, final(mmaps)@),
        grouped(
            exclusive_views(link_views(rt_lm_entries@), link_views(main_program_lm_entries@)),
            mem_views(final(mmaps)@),
            mappings_views(plan.foreign@),
        ),
        has_pkey_rust ==> grouped(
            exclusive_views(link_views(main_program_lm_entries@), link_views(rt_lm_entries@)),
            mem_views(final(mmaps)@),
            mappings_views(plan.main_program@),
        ),
        !has_pkey_rust ==> plan.main_program@.len() == 0,
        grouped(
            shared_views(link_views(main_program_lm_entries@), link_views(rt_lm_entries@)),
            mem_views(final(mmaps)@),
            mappings_views(plan.shared@),
        ),
        match plan.vdso {
            Some(e) => exists|k: int| #[trigger] first_vdso_at(mem_views(final(mmaps)@), k) && e@ == mem_views(final(mmaps)@)[k],
            None => forall|k: int|
                0 <= k < final(mmaps)@.len() ==> !is_vdso(#[trigger] mem_views(final(mmaps)@)[k]),
        },
        match plan.vdso {
            Some(e) => e@.pathname == Some("[vdso]"@),
            None => forall|k: int|
                0 <= k < final(mmaps)@.len() ==> (#[trigger] mem_views(final(mmaps)@)[k]).pathname
                    != Some("[vdso]"@),
        },
{
    let ghost m0 = mmaps@;
    let mut rt_exclusive = exclusive_link_map_entries(rt_lm_entries, main_program_lm_entries);
    let ghost ex1 = rt_exclusive@;
    let foreign = match_link_map_mem_map_regions(&mut rt_exclusive, mmaps);
    let ghost m1 = mmaps@;
    assert(grouped(
        exclusive_views(link_views(rt_lm_entries@), link_views(main_program_lm_entries@)),
        mem_views(m1),
        mappings_views(foreign@),
    ));
    let main_program = if has_pkey_rust {
        let mut main_exclusive = exclusive_link_map_entries(main_program_lm_entries, rt_lm_entries);
        let ghost ex2 = main_exclusive@;
        let r = match_link_map_mem_map_regions(&mut main_exclusive, mmaps);
        proof {
            lemma_stable_sort_of_sorted(m1, mmaps@);
            assert(grouped(
                exclusive_views(link_views(main_program_lm_entries@), link_views(rt_lm_entries@)),
                mem_views(m1),
                mappings_views(r@),
            ));
        }
        r
    } else {
        Vec::new()
    };
    assert(mmaps@ == m1);
    let mut shared = shared_link_map_entries(main_program_lm_entries, rt_lm_entries);
    let ghost ex3 = shared@;
    let shared_mappings = match_link_map_mem_map_regions(&mut shared, mmaps);
    proof {
        lemma_stable_sort_of_sorted(m1, mmaps@);
        assert(grouped(
            shared_views(link_views(main_program_lm_entries@), link_views(rt_lm_entries@)),
            mem_views(m1),
            mappings_views(shared_mappings@),
        ));
    }
    let vdso = find_vdso(mmaps);
    ProtectionPlan { foreign, main_program, shared: shared_mappings, vdso }
}

/// `grouped` determines the grouping: for the same entries and memory map
/// there is only one.
pub proof fn lemma_grouped_unique(
    entries: Seq<LinkMapView>,
    mv: Seq<MemMapView>,
    r1: Seq<LinkedMappingsView>,
    r2: Seq<LinkedMappingsView>,
)
    requires
        grouped(entries, mv, r1),
        grouped(entries, mv, r2),
    ensures
        r1 == r2,
{
    let (ex1, sl1) = choose|ex: Seq<LinkMapEntry>, sl: Seq<LinkMapEntry>|
        {
            &&& link_views(ex) == entries
            &&& #[trigger] stably_sorted(ex, sl)
            &&& r1 == match_regions(link_views(sl), mv, 0, 0)
        };
    let (ex2, sl2) = choose|ex: Seq<LinkMapEntry>, sl: Seq<LinkMapEntry>|
        {
            &&& link_views(ex) == entries
            &&& #[trigger] stably_sorted(ex, sl)
            &&& r2 == match_regions(link_views(sl), mv, 0, 0)
        };
    let p1 = choose|p: Seq<int>| stable_rearrangement(ex1, sl1, p);
    let p2 = choose|p: Seq<int>| stable_rearrangement(ex2, sl2, p);
    assert(ex1.len() == entries.len() && ex2.len() == entries.len());
    assert forall|i: int| 0 <= i < ex1.len() implies #[trigger] ex1[i].sort_key()
        == ex2[i].sort_key() by {
        assert(link_views(ex1)[i] == ex1[i]@);
        assert(link_views(ex2)[i] == ex2[i]@);
    }
    lemma_stable_sort_permutation_unique(ex1, sl1, p1, ex2, sl2, p2);
    assert forall|k: int| 0 <= k < sl1.len() implies #[trigger] link_views(sl1)[k] == link_views(
        sl2,
    )[k] by {
        assert(sl1[k] == ex1[p1[k]]);
        assert(sl2[k] == ex2[p1[k]]);
        assert(link_views(ex1)[p1[k]] == link_views(ex2)[p1[k]]);
    }
    assert(link_views(sl1) =~= link_views(sl2));
}

} // verus!
