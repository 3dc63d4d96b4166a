use vstd::prelude::*;

verus! {

/// Number of protection keys that an x86-64 PKRU register describes.
pub const PKEY_COUNT: u32 = 16;

/// Bits of one key's PKRU field that are cleared to grant full access.
pub const ALLOW_ALL: u32 = 0b11;

/// Bit of one key's PKRU field that is cleared to grant read access only
/// (this is the access-disable bit; the write-disable bit stays set).
pub const WD: u32 = 0b01;

/// Nothing cleared: the key stays fully inaccessible.
pub const AD_WD: u32 = 0b00;

/// The two-bit access-rights field of protection key `key` in a PKRU value:
/// bit 0 is access-disable, bit 1 is write-disable.
pub open spec fn key_rights(pkru: u32, key: u32) -> u32 {
    (pkru >> (2 * key) as u32) & 3
}

/// Rights that the foreign code holds on key 0 (the default key, which backs
/// all Rust memory unless Rust has a key of its own).
pub open spec fn default_key_rights(has_pkey_rust: bool, allow_global_read: bool) -> u32 {
    if has_pkey_rust {
        0
    } else if allow_global_read {
        2
    } else {
        3
    }
}

/// Rights that foreign code is meant to hold on `key`.
pub open spec fn foreign_key_rights(
    key: u32,
    pkey_library: u32,
    pkey_library_ro: u32,
    pkey_global_ro: u32,
    has_pkey_rust: bool,
    allow_global_read: bool,
) -> u32 {
    let base: u32 = if key == 0 { default_key_rights(has_pkey_rust, allow_global_read) } else { 3 };
    if key == pkey_library {
        0
    } else if key == pkey_library_ro || key == pkey_global_ro {
        base & 2
    } else {
        base
    }
}

/// A protection key as handed out by `pkey_alloc`: the kernel never hands
/// out key 0 and the PKRU register holds 16 keys.
pub open spec fn valid_pkey(pkey: i32) -> bool {
    0 < pkey < PKEY_COUNT
}

proof fn lemma_pkru_fields(
    d: u32,
    lib: u32,
    ro: u32,
    gro: u32,
    k: u32,
)
    by (bit_vector)
    requires
        0 < lib < 16,
        0 < ro < 16,
        0 < gro < 16,
        k < 16,
    ensures
        ((d & !(1u32 << ((2 * ro) as u32)) & !(1u32 << ((2 * gro) as u32)) & !(3u32 << ((2 * lib) as u32))) >> ((2 * k) as u32)) & 3
            == (if k == lib {
                0u32
            } else if k == ro || k == gro {
                ((d >> ((2 * k) as u32)) & 3) & 2
            } else {
                (d >> ((2 * k) as u32)) & 3
            }),
{
}

/// PKRU value to load while foreign code runs: the library's own key is fully
/// accessible, the two read-only keys are readable, key 0 follows the
/// configuration, and every other key is inaccessible.
pub fn foreign_code_pkru(
    pkey_library: i32,
    pkey_library_ro: i32,
    pkey_global_ro: i32,
    has_pkey_rust: bool,
    allow_global_read: bool,
) -> (pkru: u32)
    requires
        valid_pkey(pkey_library),
        valid_pkey(pkey_library_ro),
        valid_pkey(pkey_global_ro),
    ensures
        forall|key: u32|
            key < PKEY_COUNT ==> #[trigger] key_rights(pkru, key) == foreign_key_rights(
                key,
                pkey_library as u32,
                pkey_library_ro as u32,
                pkey_global_ro as u32,
                has_pkey_rust,
                allow_global_read,
            ),
{
    let default_key_perm: u32 = if has_pkey_rust {
        !ALLOW_ALL
    } else if allow_global_read {
        !WD
    } else {
        !AD_WD
    };
    let lib = pkey_library as u32;
    let ro = pkey_library_ro as u32;
    let gro = pkey_global_ro as u32;
    let pkru = default_key_perm & !(WD << (ro * 2)) & !(WD << (gro * 2)) & !(ALLOW_ALL << (lib
        * 2));
    proof {
        assert forall|key: u32| key < PKEY_COUNT implies #[trigger] key_rights(pkru, key)
            == foreign_key_rights(key, lib, ro, gro, has_pkey_rust, allow_global_read) by {
            lemma_pkru_fields(default_key_perm, lib, ro, gro, key);
            if key == 0 {
                assert(default_key_perm >> 0u32 == default_key_perm) by (bit_vector);
                assert((!3u32) & 3 == 0u32) by (bit_vector);
                assert((!1u32) & 3 == 2u32) by (bit_vector);
                assert((!0u32) & 3 == 3u32) by (bit_vector);
            } else {
                let kk = (2 * key) as u32;
                assert(0 < key < 16 && kk == (2 * key) as u32 ==> ((!3u32) >> kk) & 3 == 3u32
                    && ((!1u32) >> kk) & 3 == 3u32 && ((!0u32) >> kk) & 3 == 3u32)
                    by (bit_vector);
            }
        }
    }
    pkru
}

} // verus!
