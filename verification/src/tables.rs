//! Static position-slot and length-slot tables of the Quantum format.
//!
//! A match offset is transmitted as a coarse slot plus a run of raw extra
//! bits; a variable match length uses the same scheme with its own tables.

use vstd::arithmetic::power2::{lemma2_to64, lemma_pow2_strictly_increases, pow2};
use vstd::prelude::*;

verus! {

/// Base match offset of each position slot.
pub open spec fn spec_position_base(s: int) -> u32 {
    if s == 0 { 0 } else if s == 1 { 1 } else if s == 2 { 2 } else if s == 3 { 3 }
    else if s == 4 { 4 } else if s == 5 { 6 } else if s == 6 { 8 } else if s == 7 { 12 }
    else if s == 8 { 16 } else if s == 9 { 24 } else if s == 10 { 32 } else if s == 11 { 48 }
    else if s == 12 { 64 } else if s == 13 { 96 } else if s == 14 { 128 } else if s == 15 { 192 }
    else if s == 16 { 256 } else if s == 17 { 384 } else if s == 18 { 512 } else if s == 19 { 768 }
    else if s == 20 { 1024 } else if s == 21 { 1536 } else if s == 22 { 2048 } else if s == 23 { 3072 }
    else if s == 24 { 4096 } else if s == 25 { 6144 } else if s == 26 { 8192 } else if s == 27 { 12288 }
    else if s == 28 { 16384 } else if s == 29 { 24576 } else if s == 30 { 32768 } else if s == 31 { 49152 }
    else if s == 32 { 65536 } else if s == 33 { 98304 } else if s == 34 { 131072 } else if s == 35 { 196608 }
    else if s == 36 { 262144 } else if s == 37 { 393216 } else if s == 38 { 524288 } else if s == 39 { 786432 }
    else if s == 40 { 1048576 } else if s == 41 { 1572864 } else { 0 }
}

/// Number of raw extra bits carried by each position slot.
pub open spec fn spec_extra_bits(s: int) -> u32 {
    if 0 <= s < 4 { 0 } else if 4 <= s < 42 { ((s - 2) / 2) as u32 } else { 0 }
}

/// Base match length of each length slot (selector 6 only).
pub open spec fn spec_length_base(s: int) -> u32 {
    if s == 0 { 0 } else if s == 1 { 1 } else if s == 2 { 2 } else if s == 3 { 3 }
    else if s == 4 { 4 } else if s == 5 { 5 } else if s == 6 { 6 } else if s == 7 { 8 }
    else if s == 8 { 10 } else if s == 9 { 12 } else if s == 10 { 14 } else if s == 11 { 18 }
    else if s == 12 { 22 } else if s == 13 { 26 } else if s == 14 { 30 } else if s == 15 { 38 }
    else if s == 16 { 46 } else if s == 17 { 54 } else if s == 18 { 62 } else if s == 19 { 78 }
    else if s == 20 { 94 } else if s == 21 { 110 } else if s == 22 { 126 } else if s == 23 { 158 }
    else if s == 24 { 190 } else if s == 25 { 222 } else if s == 26 { 254 } else { 0 }
}

/// Number of raw extra bits carried by each length slot.
pub open spec fn spec_length_extra(s: int) -> u32 {
    if 0 <= s < 6 { 0 } else if 6 <= s < 26 { ((s - 2) / 4) as u32 } else { 0 }
}

/// Base match offset for a position slot.
pub fn position_base(slot: usize) -> (r: u32)
    requires
        slot < 42,
    ensures
        r == spec_position_base(slot as int),
{
    match slot {
        0 => 0, 1 => 1, 2 => 2, 3 => 3, 4 => 4, 5 => 6, 6 => 8, 7 => 12,
        8 => 16, 9 => 24, 10 => 32, 11 => 48, 12 => 64, 13 => 96, 14 => 128, 15 => 192,
        16 => 256, 17 => 384, 18 => 512, 19 => 768, 20 => 1024, 21 => 1536, 22 => 2048, 23 => 3072,
        24 => 4096, 25 => 6144, 26 => 8192, 27 => 12288, 28 => 16384, 29 => 24576, 30 => 32768, 31 => 49152,
        32 => 65536, 33 => 98304, 34 => 131072, 35 => 196608, 36 => 262144, 37 => 393216, 38 => 524288, 39 => 786432,
        40 => 1048576, _ => 1572864,
    }
}

/// Number of raw extra bits for a position slot.
pub fn extra_bits(slot: usize) -> (r: u32)
    requires
        slot < 42,
    ensures
        r == spec_extra_bits(slot as int),
        r <= 19,
{
    if slot < 4 {
        0
    } else {
        ((slot - 2) / 2) as u32
    }
}

/// Base match length for a length slot.
pub fn length_base(slot: usize) -> (r: u32)
    requires
        slot < 27,
    ensures
        r == spec_length_base(slot as int),
        r <= 254,
{
    match slot {
        0 => 0, 1 => 1, 2 => 2, 3 => 3, 4 => 4, 5 => 5, 6 => 6, 7 => 8,
        8 => 10, 9 => 12, 10 => 14, 11 => 18, 12 => 22, 13 => 26, 14 => 30, 15 => 38,
        16 => 46, 17 => 54, 18 => 62, 19 => 78, 20 => 94, 21 => 110, 22 => 126, 23 => 158,
        24 => 190, 25 => 222, _ => 254,
    }
}

/// Number of raw extra bits for a length slot.
pub fn length_extra(slot: usize) -> (r: u32)
    requires
        slot < 27,
    ensures
        r == spec_length_extra(slot as int),
        r <= 5,
{
    if slot < 6 || slot == 26 {
        0
    } else {
        ((slot - 2) / 4) as u32
    }
}

/// Every position slot's base offset, together with the full span of its
/// extra bits, stays inside a window of `2^w` bytes as long as the slot
/// number is below `2 * w`. This is what keeps every decoded match offset
/// within the sliding window.
pub proof fn lemma_offset_fits_window(s: int, w: nat)
    requires
        0 <= s < 2 * w,
        10 <= w <= 21,
    ensures
        spec_position_base(s) + pow2(spec_extra_bits(s) as nat) <= pow2(w),
{
    lemma2_to64();
    assert(spec_position_base(s) + pow2(spec_extra_bits(s) as nat) <= pow2(
        ((s / 2) + 1) as nat,
    ));
    if (s / 2) + 1 < w {
        lemma_pow2_strictly_increases(((s / 2) + 1) as nat, w);
    }
}

/// Position slot 0 carries no extra bits and always denotes a match offset
/// of exactly 1: the byte immediately before the write cursor.
pub proof fn lemma_position_slot_zero_offset(extra: int)
    requires
        0 <= extra < pow2(spec_extra_bits(0) as nat),
    ensures
        spec_position_base(0) + extra + 1 == 1,
{
    lemma2_to64();
}

} // verus!
