//! Word-granular patching of single bytes in a stopped tracee.
//!
//! Process-control primitives read and write whole aligned machine words, so a
//! byte is patched by reading its containing word, replacing one lane, and
//! writing the word back.
use vstd::prelude::*;

verus! {

/// Size in bytes of the word that the process-control interface moves.
pub const WORD_SIZE: usize = 8;

/// The one-byte software breakpoint instruction (`int3`).
pub const TRAP_OPCODE: u8 = 0xcc;

/// The aligned address of the word that holds `addr`.
pub open spec fn word_base(addr: usize) -> usize {
    (addr - addr % 8) as usize
}

/// Position of `addr` inside its word.
pub open spec fn word_offset(addr: usize) -> usize {
    (addr % 8) as usize
}

/// Byte lane `k` (little-endian) of `w`.
pub open spec fn byte_of(w: u64, k: usize) -> u8 {
    ((w >> (8 * k) as u64) & 0xff) as u8
}

/// `w` with byte lane `k` replaced by `val`.
pub open spec fn patched(w: u64, k: usize, val: u8) -> u64 {
    (w & !(0xffu64 << (8 * k) as u64)) | ((val as u64) << (8 * k) as u64)
}

/// Rounds `addr` down to the start of its word.
pub fn align_addr_to_word(addr: usize) -> (r: usize)
    ensures
        r == word_base(addr),
        r % 8 == 0,
        r <= addr < r + 8,
{
    let r = addr & !7usize;
    assert(addr & !7usize == addr - addr % 8) by (bit_vector);
    r
}

/// Replaces byte lane `k` of `w` by `val`; returns the new word and the byte
/// it replaced.
pub fn patch_word(w: u64, k: usize, val: u8) -> (r: (u64, u8))
    requires
        k < 8,
    ensures
        r.0 == patched(w, k, val),
        r.1 == byte_of(w, k),
{
    let shift: u64 = 8 * k as u64;
    let orig = ((w >> shift) & 0xff) as u8;
    let masked = w & !(0xffu64 << shift);
    let updated = masked | ((val as u64) << shift);
    (updated, orig)
}

/// Patching a lane sets exactly that lane and keeps all others.
pub proof fn lemma_patched_lanes(w: u64, k: usize, val: u8)
    requires
        k < 8,
    ensures
        byte_of(patched(w, k, val), k) == val,
        forall|j: usize| j < 8 && j != k ==> #[trigger] byte_of(patched(w, k, val), j) == byte_of(w, j),
{
    let s: u64 = (8 * k) as u64;
    assert(s < 64);
    let v = val as u64;
    assert(v < 256);
    assert(s <= 56);
    assert((((w & !(0xffu64 << s)) | (v << s)) >> s) & 0xff == v) by (bit_vector)
        requires s <= 56, v < 256;
    assert forall|j: usize| j < 8 && j != k implies #[trigger] byte_of(patched(w, k, val), j) == byte_of(w, j) by {
        let t: u64 = (8 * j) as u64;
        assert(t <= 56 && t != s && t % 8 == 0 && s % 8 == 0 && s <= 56);
        assert((((w & !(0xffu64 << s)) | (v << s)) >> t) & 0xff == (w >> t) & 0xff) by (bit_vector)
            requires s <= 56, t <= 56, t != s, t % 8 == 0, s % 8 == 0, v < 256;
    }
}

/// Installing a byte and then writing back the byte it replaced leaves the
/// word bit-identical to what it was.
pub proof fn lemma_restore_after_install(w: u64, k: usize, val: u8)
    requires
        k < 8,
    ensures
        patched(patched(w, k, val), k, byte_of(w, k)) == w,
{
    let s: u64 = (8 * k) as u64;
    assert(s < 64 && s % 8 == 0);
    let v = val as u64;
    assert(v < 256);
    assert(((((w & !(0xffu64 << s)) | (v << s)) & !(0xffu64 << s)) | ((((w >> s) & 0xff) as u8 as u64) << s)) == w) by (bit_vector)
        requires s < 64, v < 256;
}

} // verus!
