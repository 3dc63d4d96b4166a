//! The process memory map, as the kernel lists it in `/proc/self/maps`, and
//! the protection bits of a mapping.
use vstd::prelude::*;
use crate::text::{
    trim, split_limit, split_all, lines, parse_usize, range_of, trim_range,
    split_ranges, line_ranges, parse_usize_range, str_chars, lemma_split_all_two,
};

verus! {

/// `mprotect` protection: no access.
pub const PROT_NONE: u32 = 0;

/// `mprotect` protection: pages may be read.
pub const PROT_READ: u32 = 1;

/// `mprotect` protection: pages may be written.
pub const PROT_WRITE: u32 = 2;

/// `mprotect` protection: pages may be executed.
pub const PROT_EXEC: u32 = 4;

/// One mapping of the process address space, as one line of
/// `/proc/self/maps` describes it. Addresses are held as plain integers.
#[derive(Clone, Debug)]
pub struct MemMapEntry {
    pub start: usize,
    pub end: usize,
    pub read: bool,
    pub write: bool,
    pub execute: bool,
    pub shared: bool,
    pub private: bool,
    pub offset: usize,
    pub major: usize,
    pub minor: usize,
    pub inode: usize,
    /// Also holds other attributes, such as `"(deleted)"`.
    pub pathname: Option<String>,
}

/// The mathematical value of a `MemMapEntry`.
pub ghost struct MemMapView {
    pub start: usize,
    pub end: usize,
    pub read: bool,
    pub write: bool,
    pub execute: bool,
    pub shared: bool,
    pub private: bool,
    pub offset: usize,
    pub major: usize,
    pub minor: usize,
    pub inode: usize,
    pub pathname: Option<Seq<char>>,
}

impl View for MemMapEntry {
    type V = MemMapView;

    open spec fn view(&self) -> MemMapView {
        MemMapView {
            start: self.start,
            end: self.end,
            read: self.read,
            write: self.write,
            execute: self.execute,
            shared: self.shared,
            private: self.private,
            offset: self.offset,
            major: self.major,
            minor: self.minor,
            inode: self.inode,
            pathname: match self.pathname {
                Some(p) => Some(p@),
                None => None,
            },
        }
    }
}

/// The `mprotect` protection bits of a mapping with the given permissions.
pub open spec fn prot_bits(read: bool, write: bool, execute: bool) -> int {
    (if read {
        PROT_READ
    } else {
        0
    }) + (if write {
        PROT_WRITE
    } else {
        0
    }) + (if execute {
        PROT_EXEC
    } else {
        0
    })
}

impl MemMapEntry {
    /// The protection bits that reproduce this mapping's permissions.
    pub fn as_mprotect_prot(&self) -> (prot: i32)
        ensures
            prot == prot_bits(self.read, self.write, self.execute),
    {
        let mut prot: u32 = PROT_NONE;
        if self.read {
            prot = prot | PROT_READ;
        }
        if self.write {
            assert(prot <= 1 ==> prot | 2u32 == prot + 2) by (bit_vector);
            prot = prot | PROT_WRITE;
        }
        if self.execute {
            assert(prot <= 3 ==> prot | 4u32 == prot + 4) by (bit_vector);
            prot = prot | PROT_EXEC;
        }
        assert(0u32 | 1u32 == 1u32) by (bit_vector);
        prot as i32
    }

    /// A copy of this entry.
    pub fn duplicate(&self) -> (r: MemMapEntry)
        ensures
            r@ == self@,
    {
        MemMapEntry {
            start: self.start,
            end: self.end,
            read: self.read,
            write: self.write,
            execute: self.execute,
            shared: self.shared,
            private: self.private,
            offset: self.offset,
            major: self.major,
            minor: self.minor,
            inode: self.inode,
            pathname: match &self.pathname {
                Some(p) => Some(p.clone()),
                None => None,
            },
        }
    }
}

/// A permission character of the `rwxp` column: `expected` sets the flag,
/// one of `others` leaves it unset, anything else is malformed.
pub open spec fn perm_flag(c: char, expected: char, others: Seq<char>) -> Option<bool> {
    if c == expected {
        Some(true)
    } else if others.contains(c) {
        Some(false)
    } else {
        None
    }
}

/// One line of `/proc/self/maps`:
/// `start-end perms offset major:minor inode [pathname]`, with the addresses,
/// offset and device numbers in hexadecimal and the inode in decimal. The
/// line is split at its first five single spaces; the pathname is what
/// follows, trimmed.
pub open spec fn parse_maps_line(line: Seq<char>) -> Option<MemMapView> {
    let fields = split_limit(trim(line), ' ', 6);
    if fields.len() < 5 {
        None
    } else {
        let start_end = split_all(trim(fields[0]), '-');
        let perms = trim(fields[1]);
        let major_minor = split_all(trim(fields[3]), ':');
        if start_end.len() != 2 || perms.len() != 4 || major_minor.len() != 2 {
            None
        } else {
            let start = parse_usize(start_end[0], 16);
            let end = parse_usize(start_end[1], 16);
            let read = perm_flag(perms[0], 'r', seq!['-']);
            let write = perm_flag(perms[1], 'w', seq!['-']);
            let execute = perm_flag(perms[2], 'x', seq!['-']);
            let shared = perm_flag(perms[3], 's', seq!['-', 'p']);
            let private = perm_flag(perms[3], 'p', seq!['-', 's']);
            let offset = parse_usize(fields[2], 16);
            let major = parse_usize(major_minor[0], 16);
            let minor = parse_usize(major_minor[1], 16);
            let inode = parse_usize(fields[4], 10);
            if start is Some && end is Some && read is Some && write is Some && execute is Some
                && shared is Some && private is Some && offset is Some && major is Some
                && minor is Some && inode is Some {
                Some(
                    MemMapView {
                        start: start->0,
                        end: end->0,
                        read: read->0,
                        write: write->0,
                        execute: execute->0,
                        shared: shared->0,
                        private: private->0,
                        offset: offset->0,
                        major: major->0,
                        minor: minor->0,
                        inode: inode->0,
                        pathname: if fields.len() == 6 {
                            Some(trim(fields[5]))
                        } else {
                            None
                        },
                    },
                )
            } else {
                None
            }
        }
    }
}

/// The lines of a `/proc/self/maps` listing: those of the trimmed text.
pub open spec fn maps_lines(contents: Seq<char>) -> Seq<Seq<char>> {
    lines(trim(contents))
}

fn perm_flag_one(c: char, expected: char, other: char) -> (r: Option<bool>)
    ensures
        r == perm_flag(c, expected, seq![other]),
{
    proof {
        assert(seq![other][0] == other);
    }
    if c == expected {
        Some(true)
    } else if c == other {
        Some(false)
    } else {
        None
    }
}

fn perm_flag_two(c: char, expected: char, other1: char, other2: char) -> (r: Option<bool>)
    ensures
        r == perm_flag(c, expected, seq![other1, other2]),
{
    proof {
        assert(seq![other1, other2][0] == other1);
        assert(seq![other1, other2][1] == other2);
    }
    if c == expected {
        Some(true)
    } else if c == other1 || c == other2 {
        Some(false)
    } else {
        None
    }
}

fn parse_line_range(s: &Vec<char>, text: &str, lo: usize, hi: usize) -> (r: Option<MemMapEntry>)
    requires
        s@ == text@,
        lo <= hi <= s.len(),
    ensures
        match r {
            Some(e) => parse_maps_line(s@.subrange(lo as int, hi as int)) == Some(e@),
            None => parse_maps_line(s@.subrange(lo as int, hi as int)) is None,
        },
{
    let ghost line = s@.subrange(lo as int, hi as int);
    let (a, b) = trim_range(s, lo, hi);
    let f = split_ranges(s, a, b, ' ', 6);
    let ghost fields = split_limit(trim(line), ' ', 6);
    assert(fields.len() == f@.len());
    if f.len() < 5 {
        return None;
    }
    assert(range_of(s@, f@[0]) == fields[0]);
    assert(range_of(s@, f@[1]) == fields[1]);
    assert(range_of(s@, f@[2]) == fields[2]);
    assert(range_of(s@, f@[3]) == fields[3]);
    assert(range_of(s@, f@[4]) == fields[4]);
    // start-end
    let (a0, b0) = trim_range(s, f[0].0, f[0].1);
    let se = split_ranges(s, a0, b0, '-', 3);
    proof {
        lemma_split_all_two(trim(fields[0]), '-');
    }
    // perms
    let (pa, pb) = trim_range(s, f[1].0, f[1].1);
    // major:minor
    let (a3, b3) = trim_range(s, f[3].0, f[3].1);
    let mm = split_ranges(s, a3, b3, ':', 3);
    proof {
        lemma_split_all_two(trim(fields[3]), ':');
    }
    if se.len() != 2 || pb - pa != 4 || mm.len() != 2 {
        return None;
    }
    let ghost perms = trim(fields[1]);
    assert(perms =~= s@.subrange(pa as int, pb as int));
    assert(perms[0] == s@[pa as int]);
    assert(perms[1] == s@[pa + 1]);
    assert(perms[2] == s@[pa + 2]);
    assert(perms[3] == s@[pa + 3]);
    let start = parse_usize_range(s, se[0].0, se[0].1, 16);
    let end = parse_usize_range(s, se[1].0, se[1].1, 16);
    let read = perm_flag_one(s[pa], 'r', '-');
    let write = perm_flag_one(s[pa + 1], 'w', '-');
    let execute = perm_flag_one(s[pa + 2], 'x', '-');
    let shared = perm_flag_two(s[pa + 3], 's', '-', 'p');
    let private = perm_flag_two(s[pa + 3], 'p', '-', 's');
    let offset = parse_usize_range(s, f[2].0, f[2].1, 16);
    let major = parse_usize_range(s, mm[0].0, mm[0].1, 16);
    let minor = parse_usize_range(s, mm[1].0, mm[1].1, 16);
    let inode = parse_usize_range(s, f[4].0, f[4].1, 10);
    match (start, end, read, write, execute, shared, private, offset, major, minor, inode) {
        (
            Some(start),
            Some(end),
            Some(read),
            Some(write),
            Some(execute),
            Some(shared),
            Some(private),
            Some(offset),
            Some(major),
            Some(minor),
            Some(inode),
        ) => {
            let pathname = if f.len() == 6 {
                let (ta, tb) = trim_range(s, f[5].0, f[5].1);
                assert(range_of(s@, f@[5]) == fields[5]);
                let p = String::from_str(text.substring_char(ta, tb));
                Some(p)
            } else {
                None
            };
            Some(
                MemMapEntry {
                    start,
                    end,
                    read,
                    write,
                    execute,
                    shared,
                    private,
                    offset,
                    major,
                    minor,
                    inode,
                    pathname,
                },
            )
        },
        _ => None,
    }
}

/// Parses a `/proc/self/maps` listing: one entry per line of the trimmed
/// text. Returns `None` if any line is malformed.
pub fn parse_proc_self_maps(contents: &str) -> (r: Option<Vec<MemMapEntry>>)
    ensures
        match r {
            Some(v) => v@.len() == maps_lines(contents@).len() && forall|i: int|
                0 <= i < v@.len() ==> parse_maps_line(maps_lines(contents@)[i]) == Some(
                    #[trigger] v@[i]@,
                ),
            None => exists|i: int|
                0 <= i < maps_lines(contents@).len() && #[trigger] parse_maps_line(
                    maps_lines(contents@)[i],
                ) is None,
        },
{
    let s = str_chars(contents);
    let (a, b) = trim_range(&s, 0, s.len());
    assert(s@.subrange(0, s@.len() as int) =~= s@);
    let ls = line_ranges(&s, a, b);
    let ghost spec_lines = maps_lines(contents@);
    assert(spec_lines == lines(s@.subrange(a as int, b as int)));
    let mut out: Vec<MemMapEntry> = Vec::new();
    let mut i: usize = 0;
    while i < ls.len()
        invariant
            s@ == contents@,
            spec_lines == maps_lines(contents@),
            i <= ls@.len(),
            ls@.len() == spec_lines.len(),
            forall|k: int|
                0 <= k < ls@.len() ==> (#[trigger] ls@[k]).0 <= ls@[k].1 <= s@.len() && range_of(
                    s@,
                    ls@[k],
                ) == spec_lines[k],
            out@.len() == i,
            forall|k: int|
                0 <= k < i ==> parse_maps_line(spec_lines[k]) == Some(#[trigger] out@[k]@),
        decreases ls@.len() - i,
    {
        let (lo, hi) = ls[i];
        assert(range_of(s@, ls@[i as int]) == spec_lines[i as int]);
        match parse_line_range(&s, contents, lo, hi) {
            Some(e) => {
                out.push(e);
            },
            None => {
                assert(parse_maps_line(maps_lines(contents@)[i as int]) is None);
                return None;
            },
        }
        i = i + 1;
    }
    Some(out)
}

} // verus!
