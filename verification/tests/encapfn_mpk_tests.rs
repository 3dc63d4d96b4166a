use encapfn_mpk::invoke::EncapfnMPKInvokeRes;
use encapfn_mpk::linkmap::{
    exclusive_link_map_entries, match_link_map_mem_map_regions, shared_link_map_entries,
    LinkMapEntry,
};
use encapfn_mpk::maps::{parse_proc_self_maps, MemMapEntry};
use encapfn_mpk::pkru::foreign_code_pkru;
use encapfn_mpk::plan::{find_vdso, plan_protections};
use encapfn_mpk::runtime::{
    heap_alloc_page_layout, EncapfnMPKRt, EncapfnMPKRtAsmState, RustThreadState, PAGE_SIZE,
    STACK_SIZE,
};
use encapfn_mpk::sort::sort_by_key;
use encapfn_mpk::tracker::{AllocError, EncapfnMPKRtAllocTracker};

fn key_rights(pkru: u32, key: u32) -> u32 {
    (pkru >> (2 * key)) & 3
}

fn mapping(start: usize, end: usize, inode: usize, path: Option<&str>) -> MemMapEntry {
    MemMapEntry {
        start,
        end,
        read: true,
        write: false,
        execute: true,
        shared: false,
        private: true,
        offset: 0,
        major: 8,
        minor: 1,
        inode,
        pathname: path.map(|p| p.to_string()),
    }
}

fn lib(addr: usize, name: &str) -> LinkMapEntry {
    LinkMapEntry { addr, name: name.as_bytes().to_vec() }
}

fn runtime(stack_bottom: usize, stack_top: usize, handles: Vec<usize>) -> EncapfnMPKRt {
    let state = EncapfnMPKRtAsmState::new(stack_bottom, stack_top, "EncapfnMPKRt[#0]:".to_string());
    EncapfnMPKRt::from_parts(state, 0, 0x7000, 1, handles, 1, 2, None)
}

// ---- PKRU ----

#[test]
fn pkru_values() {
    assert_eq!(foreign_code_pkru(1, 2, 3, false, false), 0xffff_ffa3);
    assert_eq!(foreign_code_pkru(1, 2, 3, true, false), 0xffff_ffa0);
    assert_eq!(foreign_code_pkru(1, 2, 3, false, true), 0xffff_ffa2);
    assert_eq!(foreign_code_pkru(5, 6, 7, false, false), 0xffff_a3ff);
}

#[test]
fn pkru_key_rights() {
    for (rust, global_read, key0) in [(false, false, 3), (false, true, 2), (true, false, 0), (true, true, 0)] {
        let pkru = foreign_code_pkru(4, 9, 11, rust, global_read);
        for key in 0..16u32 {
            let expected = if key == 0 {
                key0
            } else if key == 4 {
                0
            } else if key == 9 || key == 11 {
                2
            } else {
                3
            };
            assert_eq!(key_rights(pkru, key), expected, "key {}", key);
        }
    }
}

// ---- /proc/self/maps ----

#[test]
fn parse_maps_library_line() {
    let text = "7f1c2a000000-7f1c2a021000 r-xp 0001a000 08:01 1234567                    /usr/lib/libc.so.6\n";
    let v = parse_proc_self_maps(text).unwrap();
    assert_eq!(v.len(), 1);
    let e = &v[0];
    assert_eq!(e.start, 0x7f1c2a000000);
    assert_eq!(e.end, 0x7f1c2a021000);
    assert!(e.read && !e.write && e.execute && !e.shared && e.private);
    assert_eq!(e.offset, 0x1a000);
    assert_eq!((e.major, e.minor), (8, 1));
    assert_eq!(e.inode, 1234567);
    assert_eq!(e.pathname.as_deref(), Some("/usr/lib/libc.so.6"));
}

#[test]
fn parse_maps_anonymous_and_special_lines() {
    let text = "  55d0c0000000-55d0c0021000 rw-p 00000000 00:00 0 \r\n\
                7ffd1000-7ffd3000 rw-s 00000000 00:05 42   [vdso]\r\n\
                ffffffffff600000-ffffffffff601000 --xp 00000000 00:00 0                  [vsyscall]\n\n";
    let v = parse_proc_self_maps(text).unwrap();
    assert_eq!(v.len(), 3);
    assert_eq!(v[0].pathname, None);
    assert!(v[0].read && v[0].write && !v[0].execute && v[0].private && !v[0].shared);
    assert_eq!(v[1].pathname.as_deref(), Some("[vdso]"));
    assert!(v[1].shared && !v[1].private);
    assert_eq!(v[1].inode, 42);
    assert_eq!(v[1].minor, 5);
    assert_eq!(v[2].start, 0xffffffffff600000);
    assert!(!v[2].read && !v[2].write && v[2].execute);
    assert_eq!(v[2].pathname.as_deref(), Some("[vsyscall]"));
}

#[test]
fn parse_maps_pathname_with_spaces_and_deleted() {
    let text = "1000-2000 r--p 00000000 08:02 77 /tmp/my lib.so (deleted)";
    let v = parse_proc_self_maps(text).unwrap();
    assert_eq!(v[0].pathname.as_deref(), Some("/tmp/my lib.so (deleted)"));
}

#[test]
fn parse_maps_plus_sign_and_uppercase_hex() {
    let v = parse_proc_self_maps("+1F-2aB r--p +10 0A:+b 9").unwrap();
    assert_eq!((v[0].start, v[0].end, v[0].offset), (0x1f, 0x2ab, 0x10));
    assert_eq!((v[0].major, v[0].minor, v[0].inode), (0xa, 0xb, 9));
}

#[test]
fn parse_maps_empty() {
    assert_eq!(parse_proc_self_maps("").unwrap().len(), 0);
    assert_eq!(parse_proc_self_maps(" \n\t ").unwrap().len(), 0);
}

#[test]
fn parse_maps_rejects_malformed() {
    // Unknown permission character.
    assert!(parse_proc_self_maps("1000-2000 rwzp 0 00:00 0").is_none());
    // Permission string of the wrong length.
    assert!(parse_proc_self_maps("1000-2000 rw-pp 0 00:00 0").is_none());
    // Missing inode.
    assert!(parse_proc_self_maps("1000-2000 rw-p 0 00:00").is_none());
    // No dash in the address range, or two of them.
    assert!(parse_proc_self_maps("1000 rw-p 0 00:00 0").is_none());
    assert!(parse_proc_self_maps("1000-2000-3000 rw-p 0 00:00 0").is_none());
    // Device without a colon.
    assert!(parse_proc_self_maps("1000-2000 rw-p 0 0000 0").is_none());
    // Address that does not fit in a usize.
    assert!(parse_proc_self_maps("10000000000000000-2000 rw-p 0 00:00 0").is_none());
    // Inode is decimal.
    assert!(parse_proc_self_maps("1000-2000 rw-p 0 00:00 1f").is_none());
    // A lone sign, a minus sign.
    assert!(parse_proc_self_maps("+-2000 rw-p 0 00:00 0").is_none());
    assert!(parse_proc_self_maps("1000-2000 rw-p -1 00:00 0").is_none());
    // Two spaces make an empty offset field.
    assert!(parse_proc_self_maps("1000-2000 rw-p  0 00:00 0").is_none());
    // A blank line between entries.
    assert!(parse_proc_self_maps("1000-2000 rw-p 0 00:00 0\n\n3000-4000 rw-p 0 00:00 0").is_none());
    // A single malformed line fails the whole listing.
    assert!(parse_proc_self_maps("1000-2000 rw-p 0 00:00 0\nnonsense").is_none());
}

#[test]
fn mprotect_prot_bits() {
    let mut e = mapping(0, 0x1000, 0, None);
    assert_eq!(e.as_mprotect_prot(), 5);
    e.write = true;
    e.execute = false;
    assert_eq!(e.as_mprotect_prot(), 3);
    e.read = false;
    e.write = false;
    assert_eq!(e.as_mprotect_prot(), 0);
    e.read = true;
    e.write = true;
    e.execute = true;
    assert_eq!(e.as_mprotect_prot(), 7);
}

// ---- sorting and grouping ----

#[test]
fn sort_is_stable() {
    let mut v = vec![lib(3, "c"), lib(1, "a1"), lib(2, "b"), lib(1, "a2"), lib(0, "z")];
    sort_by_key(&mut v);
    let names: Vec<&[u8]> = v.iter().map(|e| e.name.as_slice()).collect();
    assert_eq!(names, vec![&b"z"[..], b"a1", b"a2", b"b", b"c"]);
    // Sorting a sorted vector changes nothing.
    sort_by_key(&mut v);
    let again: Vec<&[u8]> = v.iter().map(|e| e.name.as_slice()).collect();
    assert_eq!(again, vec![&b"z"[..], b"a1", b"a2", b"b", b"c"]);
}

#[test]
fn match_groups_runs_by_library() {
    let mut lms = vec![lib(0x2000, "libb"), lib(0x1000, "liba"), lib(0x5000, "libc")];
    let mut mms = vec![
        mapping(0x6000, 0x7000, 9, Some("/x")),
        mapping(0x2000, 0x3000, 2, Some("/b")),
        mapping(0x1000, 0x1800, 1, Some("/a")),
        mapping(0x3000, 0x4000, 0, None),
        mapping(0x1800, 0x2000, 1, Some("/a")),
        mapping(0x4000, 0x5000, 3, Some("/c")),
    ];
    let r = match_link_map_mem_map_regions(&mut lms, &mut mms);
    let addrs: Vec<usize> = lms.iter().map(|e| e.addr).collect();
    assert_eq!(addrs, vec![0x1000, 0x2000, 0x5000]);
    let starts: Vec<usize> = mms.iter().map(|e| e.start).collect();
    assert_eq!(starts, vec![0x1000, 0x1800, 0x2000, 0x3000, 0x4000, 0x6000]);
    assert_eq!(r.len(), 3);
    assert_eq!(r[0].link_map_entry.name, b"liba".to_vec());
    let s0: Vec<usize> = r[0].mem_map_entries.iter().map(|e| e.start).collect();
    assert_eq!(s0, vec![0x1000, 0x1800]);
    let s1: Vec<usize> = r[1].mem_map_entries.iter().map(|e| e.start).collect();
    // The anonymous zero mapping continues libb; the mapping of another file
    // ends the run.
    assert_eq!(s1, vec![0x2000, 0x3000]);
    assert_eq!(r[2].link_map_entry.addr, 0x5000);
    assert!(r[2].mem_map_entries.is_empty());
}

#[test]
fn match_stops_when_mappings_run_out() {
    let mut lms = vec![lib(0x1000, "a"), lib(0x9000, "b"), lib(0xa000, "c")];
    let mut mms = vec![mapping(0x1000, 0x2000, 1, Some("/a"))];
    let r = match_link_map_mem_map_regions(&mut lms, &mut mms);
    assert_eq!(r.len(), 2);
    assert_eq!(r[0].mem_map_entries.len(), 1);
    assert_eq!(r[1].link_map_entry.addr, 0x9000);
    assert!(r[1].mem_map_entries.is_empty());
}

#[test]
fn match_empty_inputs() {
    let mut lms: Vec<LinkMapEntry> = vec![];
    let mut mms = vec![mapping(0x1000, 0x2000, 1, Some("/a"))];
    assert!(match_link_map_mem_map_regions(&mut lms, &mut mms).is_empty());
    let mut lms = vec![lib(0x1000, "a")];
    let mut mms: Vec<MemMapEntry> = vec![];
    let r = match_link_map_mem_map_regions(&mut lms, &mut mms);
    assert_eq!(r.len(), 1);
    assert!(r[0].mem_map_entries.is_empty());
}

#[test]
fn exclusive_and_shared_entries() {
    let rt = vec![lib(1, "a"), lib(2, "b"), lib(3, "c")];
    let main = vec![lib(2, "b'"), lib(4, "d")];
    let ex: Vec<usize> = exclusive_link_map_entries(&rt, &main).iter().map(|e| e.addr).collect();
    assert_eq!(ex, vec![1, 3]);
    let sh: Vec<usize> = shared_link_map_entries(&main, &rt).iter().map(|e| e.addr).collect();
    assert_eq!(sh, vec![2]);
    let mex: Vec<usize> = exclusive_link_map_entries(&main, &rt).iter().map(|e| e.addr).collect();
    assert_eq!(mex, vec![4]);
    // Exclusive and shared entries together are all entries.
    let rsh = shared_link_map_entries(&rt, &main);
    assert_eq!(exclusive_link_map_entries(&rt, &main).len() + rsh.len(), rt.len());
}

#[test]
fn vdso_lookup() {
    let mms = vec![
        mapping(0x1000, 0x2000, 0, Some("[stack]")),
        mapping(0x3000, 0x4000, 0, Some("[vdso]")),
        mapping(0x5000, 0x6000, 0, Some("[vdso]")),
    ];
    assert_eq!(find_vdso(&mms).unwrap().start, 0x3000);
    assert!(find_vdso(&mms[..1].iter().map(|m| m.duplicate()).collect()).is_none());
}

#[test]
fn protection_plan() {
    let rt = vec![lib(0x5000, "ld"), lib(0x1000, "rt"), lib(0x3000, "foreign")];
    let main = vec![lib(0x5000, "ld"), lib(0x7000, "prog")];
    let mut mms = vec![
        mapping(0x7000, 0x8000, 7, Some("/prog")),
        mapping(0x5000, 0x6000, 5, Some("/ld")),
        mapping(0x3000, 0x4000, 3, Some("/foreign")),
        mapping(0x1000, 0x2000, 1, Some("/rt")),
        mapping(0x9000, 0xa000, 0, Some("[vdso]")),
    ];
    let plan = plan_protections(&rt, &main, &mut mms, false);
    let foreign: Vec<(usize, usize)> =
        plan.foreign.iter().map(|l| (l.link_map_entry.addr, l.mem_map_entries.len())).collect();
    assert_eq!(foreign, vec![(0x1000, 1), (0x3000, 1)]);
    assert!(plan.main_program.is_empty());
    let shared: Vec<(usize, usize)> =
        plan.shared.iter().map(|l| (l.link_map_entry.addr, l.mem_map_entries.len())).collect();
    assert_eq!(shared, vec![(0x5000, 1)]);
    assert_eq!(plan.vdso.unwrap().start, 0x9000);
    let starts: Vec<usize> = mms.iter().map(|e| e.start).collect();
    assert_eq!(starts, vec![0x1000, 0x3000, 0x5000, 0x7000, 0x9000]);

    let plan = plan_protections(&rt, &main, &mut mms, true);
    let prog: Vec<(usize, usize)> =
        plan.main_program.iter().map(|l| (l.link_map_entry.addr, l.mem_map_entries.len())).collect();
    assert_eq!(prog, vec![(0x7000, 1)]);
}

// ---- runtime state, allocations, symbols ----

#[test]
fn thread_state_starts_cleared() {
    let s = RustThreadState::new();
    assert_eq!(s.runtime, 0);
    assert_eq!(s.pkru_shadow, 0);
}

#[test]
fn asm_state_new_and_engage() {
    let mut s = EncapfnMPKRtAsmState::new(0x1000, 0x9000, "p:".to_string());
    assert_eq!(s.foreign_stack_ptr(), 0x9000);
    assert_eq!(s.foreign_stack_top(), 0x9000);
    assert_eq!(s.foreign_stack_bottom(), 0x1000);
    assert_eq!(s.foreign_code_pkru(), 0);
    s.engage_protection(0xffff_ffa3);
    assert_eq!(s.foreign_code_pkru(), 0xffff_ffa3);
    assert_eq!(s.foreign_stack_ptr(), 0x9000);
    assert_eq!(s.log_prefix(), "p:");
}

#[test]
fn stacked_allocation_restores_stack() {
    let rt = runtime(0x1000, 0x2004, vec![]);
    let (p, inside) = rt
        .allocate_stacked_untracked_mut(16, 8, |p, s| (p, s.foreign_stack_ptr()))
        .unwrap();
    // 0x2004 - 16, then down by 0x2004 % 8.
    assert_eq!(p, 0x2004 - 16 - 4);
    // The callback runs with the foreign stack pointer at the allocation.
    assert_eq!(inside, p);
    assert_eq!(rt.asm_state().foreign_stack_ptr(), 0x2004);
}

#[test]
fn stacked_allocation_keeps_the_rest_of_the_state() {
    let mut state = EncapfnMPKRtAsmState::new(0x1000, 0x2000, "p:".to_string());
    state.engage_protection(0xffff_ffa3);
    let seen = state
        .allocate_stacked_untracked_mut(16, 16, |_, s| {
            (s.foreign_code_pkru(), s.foreign_stack_bottom(), s.foreign_stack_top(), s.log_prefix().clone())
        })
        .unwrap();
    assert_eq!(seen, (0xffff_ffa3, 0x1000, 0x2000, "p:".to_string()));
    assert_eq!(state.foreign_code_pkru(), 0xffff_ffa3);
    assert_eq!(state.foreign_stack_ptr(), 0x2000);
}

#[test]
fn stacked_allocation_errors() {
    let rt = runtime(0x1000, 0x2000, vec![]);
    assert_eq!(rt.allocate_stacked_untracked_mut(0, 8, |p, _| p), Err(AllocError::AllocInvalidLayout));
    assert_eq!(rt.allocate_stacked_untracked_mut(0x1001, 8, |p, _| p), Err(AllocError::AllocNoMem));
    assert_eq!(rt.allocate_stacked_untracked_mut(0x2001, 8, |p, _| p), Err(AllocError::AllocNoMem));
    // Exactly down to the bottom fits.
    assert_eq!(rt.allocate_stacked_untracked_mut(0x1000, 8, |p, _| p), Ok(0x1000));
    assert_eq!(rt.asm_state().foreign_stack_ptr(), 0x2000);
}

#[test]
fn stacked_allocation_unaligned_size() {
    // The pointer moves down by the size, then by how far the original
    // stack pointer lies above a multiple of the alignment.
    let rt = runtime(0x1000, 0x2000, vec![]);
    assert_eq!(rt.allocate_stacked_untracked_mut(24, 16, |p, _| p), Ok(0x2000 - 24));
    let rt = runtime(0xff0, 0x1002, vec![]);
    assert_eq!(rt.allocate_stacked_untracked_mut(3, 4, |p, _| p), Ok(0x1002 - 3 - 2));
    let rt = runtime(0xffe, 0x1002, vec![]);
    assert_eq!(rt.allocate_stacked_untracked_mut(3, 4, |p, _| p), Err(AllocError::AllocNoMem));
}

#[test]
fn nested_stacked_allocation_lies_below() {
    let rt = runtime(0x1000, 0x2000, vec![]);
    let (p, q) = rt
        .allocate_stacked_untracked_mut(16, 16, |p, s| {
            assert_eq!(s.foreign_stack_ptr(), p);
            let q = s.allocate_stacked_untracked_mut(8, 8, |q, _| q).unwrap();
            (p, q)
        })
        .unwrap();
    assert_eq!(p, 0x1ff0);
    assert_eq!(q, 0x1fe8);
    assert!(q + 8 <= p);
    assert_eq!(rt.asm_state().foreign_stack_ptr(), 0x2000);
}

#[test]
fn foreign_stack_pointer_sync() {
    let mut rt = runtime(0x1000, 0x2000, vec![]);
    rt.set_foreign_stack_ptr(0x1800);
    assert_eq!(rt.asm_state().foreign_stack_ptr(), 0x1800);
    assert_eq!(rt.allocate_stacked_untracked_mut(16, 16, |p, _| p), Ok(0x17f0));
    assert_eq!(rt.asm_state().foreign_stack_ptr(), 0x1800);
}

#[test]
fn tracked_allocation_valid_only_while_running() {
    let rt = runtime(0x1000, 0x2000, vec![]);
    let mut tracker = EncapfnMPKRtAllocTracker::new();
    assert!(!tracker.is_valid_mut(0x1ff0, 16));
    let r = rt.allocate_stacked_mut(16, 16, &mut tracker, |p, s, t| {
        let inside = (t.is_valid_mut(p, 16), t.is_valid(p + 8, 8), t.is_valid_mut(p, 17));
        ((p, inside, s.foreign_stack_ptr()), t)
    });
    let (p, inside, sp) = r.unwrap();
    assert_eq!(p, 0x1ff0);
    assert_eq!(sp, p);
    assert_eq!(inside, (true, true, false));
    assert!(!tracker.is_valid_mut(p, 16));
    assert_eq!(rt.asm_state().foreign_stack_ptr(), 0x2000);
}

#[test]
fn tracked_allocation_refused_leaves_tracker() {
    let rt = runtime(0x1000, 0x2000, vec![]);
    let mut tracker = EncapfnMPKRtAllocTracker::new();
    tracker.push_back(0x100, 0x10);
    let r = rt.allocate_stacked_mut(0, 16, &mut tracker, |p, _, t| (p, t));
    assert_eq!(r, Err(AllocError::AllocInvalidLayout));
    assert!(tracker.is_valid(0x100, 0x10));
    let copy = tracker.clone();
    assert!(copy.is_valid(0x100, 0x10));
}

#[test]
fn tracker_validity() {
    let mut t = EncapfnMPKRtAllocTracker::new();
    t.push_back(0x1000, 0x100);
    t.push_back(0x4000, 0x10);
    assert!(t.is_valid_mut(0x1000, 0x100));
    assert!(t.is_valid_mut(0x10ff, 1));
    assert!(t.is_valid_mut(0x1080, 0));
    assert!(!t.is_valid_mut(0x10ff, 2));
    assert!(!t.is_valid_mut(0xfff, 2));
    assert!(t.is_valid(0x4008, 8));
    // A range whose end overflows is never valid.
    assert!(!t.is_valid_mut(0x1000, usize::MAX));
    t.remove_at(0x1000);
    assert!(!t.is_valid_mut(0x1000, 1));
    assert!(t.is_valid_mut(0x4000, 1));
}

#[test]
fn symbols_resolve_to_first_library() {
    let rt = runtime(0x1000, 0x2000, vec![10, 20, 30]);
    let table = |h: usize, s: usize| -> usize {
        match (h, s) {
            (10, 0) => 0x100,
            (20, 0) => 0x200,
            (20, 1) => 0x210,
            (30, 2) => 0x320,
            _ => 0,
        }
    };
    let syms = rt.resolve_symbols::<3, _>(table).unwrap();
    assert_eq!(syms.len(), 3);
    assert_eq!(rt.lookup_symbol(0, &syms), Some(0x100));
    assert_eq!(rt.lookup_symbol(1, &syms), Some(0x210));
    assert_eq!(rt.lookup_symbol(2, &syms), Some(0x320));
    assert_eq!(rt.lookup_symbol(3, &syms), None);
}

#[test]
fn symbols_unresolved_fail_and_stop() {
    let rt = runtime(0x1000, 0x2000, vec![10, 20]);
    let calls = std::cell::Cell::new(0usize);
    let lookup = |h: usize, s: usize| -> usize {
        calls.set(calls.get() + 1);
        if s == 0 && h == 20 { 0x1 } else { 0 }
    };
    assert!(rt.resolve_symbols::<3, _>(lookup).is_none());
    // Symbol 0: two lookups, symbol 1: two lookups, then it stops.
    assert_eq!(calls.get(), 4);
    // No libraries at all: nothing resolves, but an empty table does.
    let empty = runtime(0x1000, 0x2000, vec![]);
    assert!(empty.resolve_symbols::<1, _>(|_, _| 1).is_none());
    assert_eq!(empty.resolve_symbols::<0, _>(|_, _| 1).unwrap().len(), 0);
}

#[test]
fn runtime_parts() {
    let rt = runtime(0x1000, 0x2000, vec![10]);
    assert_eq!(rt.id(), 0);
    assert_eq!(rt.rt_lib_handle(), 0x7000);
    assert_eq!(rt.rt_lmid(), 1);
    assert_eq!(rt.pkey_library(), 1);
    assert_eq!(rt.pkey_library_ro(), 2);
    assert_eq!(rt.pkey_rust(), None);
}

// ---- invocation results ----

#[test]
fn invoke_result_register_bytes() {
    let res: EncapfnMPKInvokeRes<u128> = EncapfnMPKInvokeRes::returned(0x0807060504030201, 0x100f0e0d0c0b0a09);
    assert_eq!(res.encode_eferror(), Ok(()));
    let b = res.into_result_registers(16);
    assert_eq!(b, vec![1, 2, 3, 4, 5, 6, 7, 8, 9, 10, 11, 12, 13, 14, 15, 16]);
    let res: EncapfnMPKInvokeRes<[u8; 12]> = EncapfnMPKInvokeRes::returned(0x0807060504030201, 0x100f0e0d0c0b0a09);
    assert_eq!(res.into_result_registers(12), vec![1, 2, 3, 4, 5, 6, 7, 8, 9, 10, 11, 12]);
    let res: EncapfnMPKInvokeRes<u32> = EncapfnMPKInvokeRes::returned(0xdeadbeef, 7);
    assert_eq!(res.into_result_registers(4), vec![0xef, 0xbe, 0xad, 0xde]);
    let res: EncapfnMPKInvokeRes<()> = EncapfnMPKInvokeRes::returned(1, 2);
    assert!(res.into_result_registers(0).is_empty());
    let res: EncapfnMPKInvokeRes<u128> = EncapfnMPKInvokeRes::returned(usize::MAX, 0);
    let b = res.into_result_registers(16);
    assert_eq!(&b[..8], &[0xff; 8]);
    assert_eq!(&b[8..], &[0; 8]);
}

#[test]
fn invoke_result_new_is_not_called() {
    // A fresh result has not been filled in by any call; only a returned one
    // may be decoded.
    let _fresh: EncapfnMPKInvokeRes<u64> = EncapfnMPKInvokeRes::new();
    let res: EncapfnMPKInvokeRes<u64> = EncapfnMPKInvokeRes::returned(0, 0);
    assert_eq!(res.into_result_registers(8), vec![0; 8]);
}

#[test]
fn heap_allocation_page_layout() {
    assert_eq!(heap_alloc_page_layout(1, 8), (4096, 4096));
    assert_eq!(heap_alloc_page_layout(0, 8), (0, 4096));
    assert_eq!(heap_alloc_page_layout(4096, 4096), (4096, 4096));
    assert_eq!(heap_alloc_page_layout(5000, 16), (8192, 4096));
    assert_eq!(heap_alloc_page_layout(100, 8192), (8192, 8192));
    assert_eq!(PAGE_SIZE, 4096);
    assert_eq!(STACK_SIZE, 8 * 1024 * 1024);
}
