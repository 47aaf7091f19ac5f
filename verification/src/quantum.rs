//! The per-file decompression loop.
//!
//! The whole archive is one continuous bit stream: the arithmetic coder
//! registers and all nine adaptive models persist across file boundaries.
//! The only boundary action is consuming a 16-bit marker from the raw bit
//! stream between adjacent files. Termination is size-driven: each file
//! contributes exactly its declared size to the output.

use crate::bitreader::BitReader;
use crate::decoder::{
    decode_symbol, spec_narrowed_h, spec_narrowed_l, spec_pick_index, spec_renorm, spec_symf,
};
use crate::errors::QtmError;
use crate::model::{
    spec_bump, spec_update_shift, spec_update_syms, Model, ModelSym,
};
use crate::tables::{
    extra_bits, lemma_offset_fits_window, length_base, length_extra, position_base,
    spec_extra_bits, spec_length_base, spec_length_extra, spec_position_base,
};
use crate::window::{copied_byte, copy_match};
use vstd::arithmetic::power2::{lemma2_to64, lemma_pow2_strictly_increases, pow2};
use vstd::bits::lemma_u32_shl_is_mul;
use vstd::prelude::*;

verus! {

/// Sum of the first `k` declared file sizes.
pub open spec fn sum_prefix(s: Seq<u32>, k: int) -> int
    decreases k,
{
    if k <= 0 {
        0
    } else {
        sum_prefix(s, k - 1) + s[k - 1]
    }
}

/// Sum of all declared file sizes.
pub open spec fn spec_total_size(s: Seq<u32>) -> int {
    sum_prefix(s, s.len() as int)
}

proof fn lemma_sum_prefix_nonneg(s: Seq<u32>, k: int)
    requires
        k <= s.len(),
    ensures
        sum_prefix(s, k) >= 0,
    decreases k,
{
    if k > 0 {
        lemma_sum_prefix_nonneg(s, k - 1);
    }
}

proof fn lemma_sum_prefix_mono(s: Seq<u32>, a: int, b: int)
    requires
        0 <= a <= b <= s.len(),
    ensures
        sum_prefix(s, a) <= sum_prefix(s, b),
    decreases b,
{
    if a < b {
        lemma_sum_prefix_mono(s, a, b - 1);
    }
}

/// Ghost snapshot of the whole decoder: the nine models (record list and
/// rescale countdown, indexed 0-3 literal buckets, 4-6 position slots,
/// 7 length slots, 8 selector), the coder registers, the bit reader, the
/// window with its write cursor, and the output produced so far.
pub struct DecodeState {
    pub models: Seq<(Seq<ModelSym>, int)>,
    pub h: u16,
    pub l: u16,
    pub c: u16,
    pub rd: BitReader,
    pub window: Seq<u8>,
    pub posn: int,
    pub out: Seq<u8>,
}

/// One model-backed symbol decode at the spec level: the decoded symbol,
/// the updated model, and the renormalized registers and reader.
#[verifier::opaque]
pub open spec fn spec_decode(ms: Seq<ModelSym>, sl: int, h: u16, l: u16, c: u16, rd: BitReader)
    -> (u16, (Seq<ModelSym>, int), u16, u16, u16, BitReader) {
    let e = ms.len() - 1;
    let idx = spec_pick_index(ms, e, spec_symf(h, l, c, ms[0].cumfreq as int), 1);
    let sym = ms[idx - 1].sym;
    let bumped = spec_bump(ms, idx);
    let ms2 = if bumped[0].cumfreq > 3800 {
        spec_update_syms(bumped, e, sl)
    } else {
        bumped
    };
    let sl2 = if bumped[0].cumfreq > 3800 {
        spec_update_shift(sl)
    } else {
        sl
    };
    let rn = spec_renorm(spec_narrowed_h(ms, e, h, l, c), spec_narrowed_l(ms, e, h, l, c), c, rd);
    (sym, (ms2, sl2), rn.0, rn.1, rn.2, rn.3)
}

/// One decode of model `mi` applied to a full decoder state.
#[verifier::opaque]
pub open spec fn spec_state_decode(st: DecodeState, mi: int) -> (u16, DecodeState) {
    let m = st.models[mi];
    let d = spec_decode(m.0, m.1, st.h, st.l, st.c, st.rd);
    (
        d.0,
        DecodeState { models: st.models.update(mi, d.1), h: d.2, l: d.3, c: d.4, rd: d.5, ..st },
    )
}

/// The bytes a match copy appends to the output.
#[verifier::opaque]
pub open spec fn spec_copied_bytes(win: Seq<u8>, posn: int, off: int, count: int) -> Seq<u8> {
    Seq::new(count as nat, |k: int| copied_byte(win, posn, off, k))
}

/// The window after a match copy: positions the copy wrote carry the
/// copied bytes; all others are untouched.
#[verifier::opaque]
pub open spec fn spec_copied_window(win: Seq<u8>, posn: int, off: int, count: int) -> Seq<u8> {
    Seq::new(
        win.len(),
        |idx: int|
            if exists|m: int|
                #![trigger (posn + m) % (win.len() as int)]
                0 <= m < count && idx == (posn + m) % (win.len() as int) {
                copied_byte(
                    win,
                    posn,
                    off,
                    choose|m: int|
                        #![trigger (posn + m) % (win.len() as int)]
                        0 <= m < count && idx == (posn + m) % (win.len() as int),
                )
            } else {
                win[idx]
            },
    )
}

/// The match offset encoded by a position slot and its raw extra bits,
/// with the reader after those bits.
#[verifier::opaque]
pub open spec fn spec_match_offset(slot: int, rd: BitReader) -> (int, BitReader) {
    let ex = rd.spec_read_many(spec_extra_bits(slot), 0);
    (spec_position_base(slot) + ex.0 + 1, ex.1)
}

/// The match length encoded by a length slot and its raw extra bits, with
/// the reader after those bits.
#[verifier::opaque]
pub open spec fn spec_match_length(slot: int, rd: BitReader) -> (int, BitReader) {
    let ex = rd.spec_read_many(spec_length_extra(slot), 0);
    (spec_length_base(slot) + ex.0 + 5, ex.1)
}

/// One selector dispatch: decode the selector, then emit one literal byte
/// or synthesize one match, truncated to the `remaining` bytes still owed
/// to the current file.
#[verifier::opaque]
pub open spec fn spec_select_step(st: DecodeState, remaining: int) -> DecodeState {
    let s1 = spec_state_decode(st, 8);
    let sel = s1.0;
    let st1 = s1.1;
    if sel < 4 {
        let s2 = spec_state_decode(st1, sel as int);
        let byte = s2.0 as u8;
        let st2 = s2.1;
        DecodeState {
            window: st2.window.update(st2.posn, byte),
            posn: (st2.posn + 1) % (st2.window.len() as int),
            out: st2.out.push(byte),
            ..st2
        }
    } else if sel == 4 || sel == 5 {
        let s2 = spec_state_decode(st1, sel as int);
        let st2 = s2.1;
        let ofs = spec_match_offset(s2.0 as int, st2.rd);
        let len: int = if sel == 4 {
            3
        } else {
            4
        };
        let count = if len < remaining {
            len
        } else {
            remaining
        };
        DecodeState {
            rd: ofs.1,
            window: spec_copied_window(st2.window, st2.posn, ofs.0, count),
            posn: (st2.posn + count) % (st2.window.len() as int),
            out: st2.out + spec_copied_bytes(st2.window, st2.posn, ofs.0, count),
            ..st2
        }
    } else {
        let s2 = spec_state_decode(st1, 7);
        let ln = spec_match_length(s2.0 as int, s2.1.rd);
        let s3 = spec_state_decode(DecodeState { rd: ln.1, ..s2.1 }, 6);
        let st3 = s3.1;
        let ofs = spec_match_offset(s3.0 as int, st3.rd);
        let count = if ln.0 < remaining {
            ln.0
        } else {
            remaining
        };
        DecodeState {
            rd: ofs.1,
            window: spec_copied_window(st3.window, st3.posn, ofs.0, count),
            posn: (st3.posn + count) % (st3.window.len() as int),
            out: st3.out + spec_copied_bytes(st3.window, st3.posn, ofs.0, count),
            ..st3
        }
    }
}

/// Selector dispatches until a file's remaining byte budget is exhausted.
/// (Every reachable step emits at least one byte; the clamp in the
/// recursion only guards termination.)
pub open spec fn spec_run_file(st: DecodeState, remaining: int) -> DecodeState
    decreases remaining,
{
    if remaining <= 0 {
        st
    } else {
        let st2 = spec_select_step(st, remaining);
        let emitted = st2.out.len() - st.out.len();
        spec_run_file(st2, remaining - (if 1 <= emitted <= remaining { emitted } else { 1 }))
    }
}

/// The files from index `k` onward: each is decoded to its declared size,
/// and a 16-bit marker is consumed after every file but the last.
pub open spec fn spec_run_files(st: DecodeState, sizes: Seq<u32>, k: int) -> DecodeState
    decreases sizes.len() - k,
{
    if k < 0 || k >= sizes.len() {
        st
    } else {
        let st1 = spec_run_file(st, sizes[k] as int);
        let st2 = if k < sizes.len() - 1 {
            DecodeState { rd: st1.rd.spec_read_state(16), ..st1 }
        } else {
            st1
        };
        spec_run_files(st2, sizes, k + 1)
    }
}

/// Remaining work from the middle of file `k`: finish it with `rem` bytes
/// still owed, consume the marker unless it is the last file, then decode
/// the files after it.
#[verifier::opaque]
pub open spec fn spec_resume(st: DecodeState, rem: int, sizes: Seq<u32>, k: int) -> DecodeState {
    let st1 = spec_run_file(st, rem);
    let st2 = if k < sizes.len() - 1 {
        DecodeState { rd: st1.rd.spec_read_state(16), ..st1 }
    } else {
        st1
    };
    spec_run_files(st2, sizes, k + 1)
}

/// A fresh model for the symbol range `[start, start + len)`.
#[verifier::opaque]
pub open spec fn spec_init_model(start: int, len: int) -> (Seq<ModelSym>, int) {
    (
        Seq::new(
            (len + 1) as nat,
            |i: int| ModelSym { sym: (start + i) as u16, cumfreq: (len - i) as u16 },
        ),
        4,
    )
}

/// The decoder state before the first selector: fresh models, a zeroed
/// window of `2^wb` bytes, coder registers with C seeded from the first
/// 16 stream bits, and no output.
#[verifier::opaque]
pub open spec fn spec_init_state(data: Vec<u8>, wb: int) -> DecodeState {
    let i2 = 2 * wb;
    let rd0 = BitReader { data, pos: 0, bit_buffer: 0, bits_left: 0, consumed: Ghost(0nat) };
    DecodeState {
        models: seq![
            spec_init_model(0, 64),
            spec_init_model(64, 64),
            spec_init_model(128, 64),
            spec_init_model(192, 64),
            spec_init_model(0, if i2 > 24 { 24 } else { i2 }),
            spec_init_model(0, if i2 > 36 { 36 } else { i2 }),
            spec_init_model(0, i2),
            spec_init_model(0, 27),
            spec_init_model(0, 7),
        ],
        h: 0xFFFF,
        l: 0,
        c: rd0.spec_read_value(16) as u16,
        rd: rd0.spec_read_state(16),
        window: Seq::new(pow2(wb as nat), |_i: int| 0u8),
        posn: 0,
        out: Seq::empty(),
    }
}

/// The whole decode: everything the library produces for a given payload,
/// file table and window exponent.
pub open spec fn spec_decompress(data: Vec<u8>, sizes: Seq<u32>, wb: int) -> Seq<u8> {
    spec_run_files(spec_init_state(data, wb), sizes, 0).out
}

/// Ghost view of the decompressor's live state.
#[verifier::opaque]
pub open spec fn view_state(
    m0: Model,
    m1: Model,
    m2: Model,
    m3: Model,
    m4: Model,
    m5: Model,
    m6: Model,
    m6len: Model,
    m7: Model,
    h: u16,
    l: u16,
    c: u16,
    rd: BitReader,
    window: Seq<u8>,
    posn: int,
    out: Seq<u8>,
) -> DecodeState {
    DecodeState {
        models: seq![
            (m0.syms@, m0.shift_left as int),
            (m1.syms@, m1.shift_left as int),
            (m2.syms@, m2.shift_left as int),
            (m3.syms@, m3.shift_left as int),
            (m4.syms@, m4.shift_left as int),
            (m5.syms@, m5.shift_left as int),
            (m6.syms@, m6.shift_left as int),
            (m6len.syms@, m6len.shift_left as int),
            (m7.syms@, m7.shift_left as int),
        ],
        h,
        l,
        c,
        rd,
        window,
        posn,
        out,
    }
}

/// A short match (selector 4 or 5): the position slot plus raw extra
/// bits give the offset, the length is fixed at 3 or 4, and the copy is
/// truncated at the file boundary.
#[verifier::rlimit(100)]
#[allow(clippy::too_many_arguments)]
fn match45_step(
    model0: &Model,
    model1: &Model,
    model2: &Model,
    model3: &Model,
    model4: &mut Model,
    model5: &mut Model,
    model6: &mut Model,
    model6len: &mut Model,
    model7: &Model,
    bits: &mut BitReader,
    h: &mut u16,
    l: &mut u16,
    c: &mut u16,
    window: &mut Vec<u8>,
    window_posn: usize,
    output: &mut Vec<u8>,
    file_end: usize,
    window_bits: u8,
    selector: u16,
    Ghost(stv): Ghost<DecodeState>,
    Ghost(st1g): Ghost<DecodeState>,
    Ghost(rem_old): Ghost<int>,
) -> (r: Result<usize, QtmError>)
    requires
        10 <= window_bits <= 21,
        old(window).len() == pow2(window_bits as nat),
        1024 <= old(window).len() <= 0x0020_0000,
        window_posn < old(window).len(),
        old(output).len() < file_end,
        old(bits).wf(),
        *old(l) <= *old(h),
        *old(h) - *old(l) >= 0x4001,
        old(model4).wf() && old(model4).total() <= 3800 && old(model4).entries >= 1,
        old(model5).wf() && old(model5).total() <= 3800 && old(model5).entries >= 1,
        old(model6).wf() && old(model6).total() <= 3800 && old(model6).entries >= 1,
        old(model6len).wf() && old(model6len).total() <= 3800 && old(model6len).entries >= 1,
        old(model4).syms_below(2 * (window_bits as int)),
        old(model5).syms_below(2 * (window_bits as int)),
        old(model6).syms_below(2 * (window_bits as int)),
        old(model6len).syms_below(27),
        4 <= selector <= 5,
        spec_state_decode(stv, 8) == (selector, st1g),
        view_state(
            *model0,
            *model1,
            *model2,
            *model3,
            *old(model4),
            *old(model5),
            *old(model6),
            *old(model6len),
            *model7,
            *old(h),
            *old(l),
            *old(c),
            *old(bits),
            old(window)@,
            window_posn as int,
            old(output)@,
        ) == st1g,
        rem_old == file_end - old(output)@.len(),
    ensures
        r is Ok,
        final(bits).wf(),
        *final(l) <= *final(h),
        *final(h) - *final(l) >= 0x4001,
        final(model4).wf() && final(model4).total() <= 3800 && final(model4).entries
            == old(model4).entries,
        final(model5).wf() && final(model5).total() <= 3800 && final(model5).entries
            == old(model5).entries,
        final(model6).wf() && final(model6).total() <= 3800 && final(model6).entries
            == old(model6).entries,
        final(model6len).wf() && final(model6len).total() <= 3800 && final(model6len).entries
            == old(model6len).entries,
        final(model4).syms_from(*old(model4)),
        final(model5).syms_from(*old(model5)),
        final(model6).syms_from(*old(model6)),
        final(model6len).syms_from(*old(model6len)),
        final(window).len() == old(window).len(),
        old(output).len() < final(output).len() <= file_end,
        r matches Ok(p) ==> p < old(window).len(),
        r matches Ok(p) ==> view_state(
            *model0,
            *model1,
            *model2,
            *model3,
            *final(model4),
            *final(model5),
            *final(model6),
            *final(model6len),
            *model7,
            *final(h),
            *final(l),
            *final(c),
            *final(bits),
            final(window)@,
            p as int,
            final(output)@,
        ) == spec_select_step(stv, rem_old),
{
    let ghost wb = window_bits as nat;
    let window_size: usize = window.len();
    let mut posn: usize = window_posn;
        let match_offset: usize;
        let match_length: usize;
        if selector == 4 {
            proof {
                assert(model4.syms@[0].cumfreq >= model4.syms@[model4.entries as int].cumfreq
                    + model4.entries);
            }
            let slot = match decode_symbol(model4, bits, h, l, c) {
                Ok(s) => s,
                Err(e) => {
                    return Err(e);
                },
            } as usize;
            let ghost sd1 = spec_state_decode(st1g, 4);
            proof {
                assert(slot == sd1.0 as int) by {
                    reveal(view_state);
                    reveal(spec_state_decode);
                    reveal(spec_decode);
                }
                assert(view_state(
                    *model0, *model1, *model2, *model3, *model4, *model5, *model6,
                    *model6len, *model7, *h, *l, *c, *bits, window@, posn as int, output@,
                ) == sd1.1) by {
                    reveal(view_state);
                    reveal(spec_state_decode);
                    reveal(spec_decode);
                    assert(view_state(
                        *model0, *model1, *model2, *model3, *model4, *model5, *model6,
                        *model6len, *model7, *h, *l, *c, *bits, window@, posn as int,
                        output@,
                    ).models =~= sd1.1.models);
                }
            }
            if slot >= 42 {
                return Err(QtmError::InvalidPositionSlot);
            }
            let ghost mo = spec_match_offset(slot as int, sd1.1.rd);
            let extra = bits.read_many_bits(extra_bits(slot));
            proof {
                lemma_offset_fits_window(slot as int, wb);
                reveal(spec_match_offset);
                reveal(view_state);
                assert(*bits == mo.1);
            }
            match_offset = (position_base(slot) + extra + 1) as usize;
            match_length = 3;
            proof {
                reveal(spec_match_offset);
                assert(match_offset as int == mo.0);
            }
        } else {
            proof {
                assert(model5.syms@[0].cumfreq >= model5.syms@[model5.entries as int].cumfreq
                    + model5.entries);
            }
            let slot = match decode_symbol(model5, bits, h, l, c) {
                Ok(s) => s,
                Err(e) => {
                    return Err(e);
                },
            } as usize;
            let ghost sd1 = spec_state_decode(st1g, 5);
            proof {
                assert(slot == sd1.0 as int) by {
                    reveal(view_state);
                    reveal(spec_state_decode);
                    reveal(spec_decode);
                }
                assert(view_state(
                    *model0, *model1, *model2, *model3, *model4, *model5, *model6,
                    *model6len, *model7, *h, *l, *c, *bits, window@, posn as int, output@,
                ) == sd1.1) by {
                    reveal(view_state);
                    reveal(spec_state_decode);
                    reveal(spec_decode);
                    assert(view_state(
                        *model0, *model1, *model2, *model3, *model4, *model5, *model6,
                        *model6len, *model7, *h, *l, *c, *bits, window@, posn as int,
                        output@,
                    ).models =~= sd1.1.models);
                }
            }
            if slot >= 42 {
                return Err(QtmError::InvalidPositionSlot);
            }
            let ghost mo = spec_match_offset(slot as int, sd1.1.rd);
            let extra = bits.read_many_bits(extra_bits(slot));
            proof {
                lemma_offset_fits_window(slot as int, wb);
                reveal(spec_match_offset);
                reveal(view_state);
                assert(*bits == mo.1);
            }
            match_offset = (position_base(slot) + extra + 1) as usize;
            match_length = 4;
            proof {
                reveal(spec_match_offset);
                assert(match_offset as int == mo.0);
            }
        }

        let remaining = file_end - output.len();
        let count = if match_length < remaining {
            match_length
        } else {
            remaining
        };
        let ghost pre_win = window@;
        let ghost pre_out = output@;
        let ghost pre_posn = posn as int;
        posn = copy_match(window, posn, output, match_offset, count);
        proof {
            assert(window@ == spec_copied_window(
                pre_win,
                pre_posn,
                match_offset as int,
                count as int,
            )) by {
                reveal(spec_copied_window);
                assert forall|idx: int| 0 <= idx < pre_win.len() implies window@[idx]
                    == spec_copied_window(
                    pre_win,
                    pre_posn,
                    match_offset as int,
                    count as int,
                )[idx] by {
                    if exists|m: int|
                        #![trigger (pre_posn + m) % (pre_win.len() as int)]
                        0 <= m < count as int && idx == (pre_posn + m) % (
                        pre_win.len() as int) {
                        let m0 = choose|m: int|
                            #![trigger (pre_posn + m) % (pre_win.len() as int)]
                            0 <= m < count as int && idx == (pre_posn + m) % (
                            pre_win.len() as int);
                        assert(window@[(pre_posn + m0) % (pre_win.len() as int)]
                            == copied_byte(pre_win, pre_posn, match_offset as int, m0));
                    }
                }
                assert(window@ =~= spec_copied_window(
                    pre_win,
                    pre_posn,
                    match_offset as int,
                    count as int,
                ));
            }
            assert(output@ == pre_out + spec_copied_bytes(
                pre_win,
                pre_posn,
                match_offset as int,
                count as int,
            )) by {
                reveal(spec_copied_bytes);
                assert(output@ =~= pre_out + spec_copied_bytes(
                    pre_win,
                    pre_posn,
                    match_offset as int,
                    count as int,
                ));
            }
            assert(view_state(
                *model0, *model1, *model2, *model3, *model4, *model5, *model6, *model6len,
                *model7, *h, *l, *c, *bits, window@, posn as int, output@,
            ) == spec_select_step(stv, rem_old)) by {
                reveal(view_state);
                reveal(spec_select_step);
            }
        }
        proof {
        assert(view_state(
            *model0, *model1, *model2, *model3, *model4, *model5, *model6, *model6len,
            *model7, *h, *l, *c, *bits, window@, posn as int, output@,
        ) == spec_select_step(stv, rem_old));
    }
    Ok(posn)
}

/// A general match (selector 6): the length slot and position slot each
/// carry raw extra bits, and the copy is truncated at the file boundary.
#[verifier::rlimit(100)]
#[allow(clippy::too_many_arguments)]
fn match6_step(
    model0: &Model,
    model1: &Model,
    model2: &Model,
    model3: &Model,
    model4: &mut Model,
    model5: &mut Model,
    model6: &mut Model,
    model6len: &mut Model,
    model7: &Model,
    bits: &mut BitReader,
    h: &mut u16,
    l: &mut u16,
    c: &mut u16,
    window: &mut Vec<u8>,
    window_posn: usize,
    output: &mut Vec<u8>,
    file_end: usize,
    window_bits: u8,
    selector: u16,
    Ghost(stv): Ghost<DecodeState>,
    Ghost(st1g): Ghost<DecodeState>,
    Ghost(rem_old): Ghost<int>,
) -> (r: Result<usize, QtmError>)
    requires
        10 <= window_bits <= 21,
        old(window).len() == pow2(window_bits as nat),
        1024 <= old(window).len() <= 0x0020_0000,
        window_posn < old(window).len(),
        old(output).len() < file_end,
        old(bits).wf(),
        *old(l) <= *old(h),
        *old(h) - *old(l) >= 0x4001,
        old(model4).wf() && old(model4).total() <= 3800 && old(model4).entries >= 1,
        old(model5).wf() && old(model5).total() <= 3800 && old(model5).entries >= 1,
        old(model6).wf() && old(model6).total() <= 3800 && old(model6).entries >= 1,
        old(model6len).wf() && old(model6len).total() <= 3800 && old(model6len).entries >= 1,
        old(model4).syms_below(2 * (window_bits as int)),
        old(model5).syms_below(2 * (window_bits as int)),
        old(model6).syms_below(2 * (window_bits as int)),
        old(model6len).syms_below(27),
        selector == 6,
        spec_state_decode(stv, 8) == (selector, st1g),
        view_state(
            *model0,
            *model1,
            *model2,
            *model3,
            *old(model4),
            *old(model5),
            *old(model6),
            *old(model6len),
            *model7,
            *old(h),
            *old(l),
            *old(c),
            *old(bits),
            old(window)@,
            window_posn as int,
            old(output)@,
        ) == st1g,
        rem_old == file_end - old(output)@.len(),
    ensures
        r is Ok,
        final(bits).wf(),
        *final(l) <= *final(h),
        *final(h) - *final(l) >= 0x4001,
        final(model4).wf() && final(model4).total() <= 3800 && final(model4).entries
            == old(model4).entries,
        final(model5).wf() && final(model5).total() <= 3800 && final(model5).entries
            == old(model5).entries,
        final(model6).wf() && final(model6).total() <= 3800 && final(model6).entries
            == old(model6).entries,
        final(model6len).wf() && final(model6len).total() <= 3800 && final(model6len).entries
            == old(model6len).entries,
        final(model4).syms_from(*old(model4)),
        final(model5).syms_from(*old(model5)),
        final(model6).syms_from(*old(model6)),
        final(model6len).syms_from(*old(model6len)),
        final(window).len() == old(window).len(),
        old(output).len() < final(output).len() <= file_end,
        r matches Ok(p) ==> p < old(window).len(),
        r matches Ok(p) ==> view_state(
            *model0,
            *model1,
            *model2,
            *model3,
            *final(model4),
            *final(model5),
            *final(model6),
            *final(model6len),
            *model7,
            *final(h),
            *final(l),
            *final(c),
            *final(bits),
            final(window)@,
            p as int,
            final(output)@,
        ) == spec_select_step(stv, rem_old),
{
    let ghost wb = window_bits as nat;
    let window_size: usize = window.len();
    let mut posn: usize = window_posn;
        let match_offset: usize;
        let match_length: usize;
        {
            proof {
                assert(model6len.syms@[0].cumfreq
                    >= model6len.syms@[model6len.entries as int].cumfreq
                    + model6len.entries);
            }
            let len_slot = match decode_symbol(model6len, bits, h, l, c) {
                Ok(s) => s,
                Err(e) => {
                    return Err(e);
                },
            } as usize;
            let ghost sd1 = spec_state_decode(st1g, 7);
            proof {
                assert(len_slot == sd1.0 as int) by {
                    reveal(view_state);
                    reveal(spec_state_decode);
                    reveal(spec_decode);
                }
                assert(view_state(
                    *model0, *model1, *model2, *model3, *model4, *model5, *model6,
                    *model6len, *model7, *h, *l, *c, *bits, window@, posn as int, output@,
                ) == sd1.1) by {
                    reveal(view_state);
                    reveal(spec_state_decode);
                    reveal(spec_decode);
                    assert(view_state(
                        *model0, *model1, *model2, *model3, *model4, *model5, *model6,
                        *model6len, *model7, *h, *l, *c, *bits, window@, posn as int,
                        output@,
                    ).models =~= sd1.1.models);
                }
            }
            if len_slot >= 27 {
                return Err(QtmError::InvalidLengthSlot);
            }
            let ghost ml = spec_match_length(len_slot as int, sd1.1.rd);
            let len_extra = bits.read_many_bits(length_extra(len_slot));
            proof {
                lemma2_to64();
                if (spec_length_extra(len_slot as int) as nat) < 5 {
                    lemma_pow2_strictly_increases(
                        spec_length_extra(len_slot as int) as nat,
                        5,
                    );
                }
                reveal(spec_match_length);
                reveal(view_state);
                assert(*bits == ml.1);
            }
            let length: usize = (length_base(len_slot) as usize) + (len_extra as usize)
                + 5;
            proof {
                reveal(spec_match_length);
            }
            assert(length as int == ml.0);
            proof {
                assert(model6.syms@[0].cumfreq >= model6.syms@[model6.entries as int].cumfreq
                    + model6.entries);
            }
            let slot = match decode_symbol(model6, bits, h, l, c) {
                Ok(s) => s,
                Err(e) => {
                    return Err(e);
                },
            } as usize;
            let ghost sd2 = spec_state_decode(DecodeState { rd: ml.1, ..sd1.1 }, 6);
            proof {
                assert(slot == sd2.0 as int) by {
                    reveal(view_state);
                    reveal(spec_state_decode);
                    reveal(spec_decode);
                }
                assert(view_state(
                    *model0, *model1, *model2, *model3, *model4, *model5, *model6,
                    *model6len, *model7, *h, *l, *c, *bits, window@, posn as int, output@,
                ) == sd2.1) by {
                    reveal(view_state);
                    reveal(spec_state_decode);
                    reveal(spec_decode);
                    assert(view_state(
                        *model0, *model1, *model2, *model3, *model4, *model5, *model6,
                        *model6len, *model7, *h, *l, *c, *bits, window@, posn as int,
                        output@,
                    ).models =~= sd2.1.models);
                }
            }
            if slot >= 42 {
                return Err(QtmError::InvalidPositionSlot);
            }
            let ghost mo = spec_match_offset(slot as int, sd2.1.rd);
            let extra = bits.read_many_bits(extra_bits(slot));
            proof {
                lemma_offset_fits_window(slot as int, wb);
                reveal(spec_match_offset);
                reveal(view_state);
                assert(*bits == mo.1);
            }
            match_offset = (position_base(slot) + extra + 1) as usize;
            match_length = length;
            proof {
                reveal(spec_match_offset);
                assert(match_offset as int == mo.0);
            }
        }

        let remaining = file_end - output.len();
        let count = if match_length < remaining {
            match_length
        } else {
            remaining
        };
        let ghost pre_win = window@;
        let ghost pre_out = output@;
        let ghost pre_posn = posn as int;
        posn = copy_match(window, posn, output, match_offset, count);
        proof {
            assert(window@ == spec_copied_window(
                pre_win,
                pre_posn,
                match_offset as int,
                count as int,
            )) by {
                reveal(spec_copied_window);
                assert forall|idx: int| 0 <= idx < pre_win.len() implies window@[idx]
                    == spec_copied_window(
                    pre_win,
                    pre_posn,
                    match_offset as int,
                    count as int,
                )[idx] by {
                    if exists|m: int|
                        #![trigger (pre_posn + m) % (pre_win.len() as int)]
                        0 <= m < count as int && idx == (pre_posn + m) % (
                        pre_win.len() as int) {
                        let m0 = choose|m: int|
                            #![trigger (pre_posn + m) % (pre_win.len() as int)]
                            0 <= m < count as int && idx == (pre_posn + m) % (
                            pre_win.len() as int);
                        assert(window@[(pre_posn + m0) % (pre_win.len() as int)]
                            == copied_byte(pre_win, pre_posn, match_offset as int, m0));
                    }
                }
                assert(window@ =~= spec_copied_window(
                    pre_win,
                    pre_posn,
                    match_offset as int,
                    count as int,
                ));
            }
            assert(output@ == pre_out + spec_copied_bytes(
                pre_win,
                pre_posn,
                match_offset as int,
                count as int,
            )) by {
                reveal(spec_copied_bytes);
                assert(output@ =~= pre_out + spec_copied_bytes(
                    pre_win,
                    pre_posn,
                    match_offset as int,
                    count as int,
                ));
            }
            assert(view_state(
                *model0, *model1, *model2, *model3, *model4, *model5, *model6, *model6len,
                *model7, *h, *l, *c, *bits, window@, posn as int, output@,
            ) == spec_select_step(stv, rem_old)) by {
                reveal(view_state);
                reveal(spec_select_step);
            }
        }
        proof {
        assert(view_state(
            *model0, *model1, *model2, *model3, *model4, *model5, *model6, *model6len,
            *model7, *h, *l, *c, *bits, window@, posn as int, output@,
        ) == spec_select_step(stv, rem_old));
    }
    Ok(posn)
}


/// One selector dispatch of the decompression loop: decode the selector
/// and emit one literal byte or one (possibly truncated) match, exactly as
/// `spec_select_step` describes. Returns the window cursor after the step.
#[verifier::rlimit(100)]
#[allow(clippy::too_many_arguments)]
fn decompress_step(
    model0: &mut Model,
    model1: &mut Model,
    model2: &mut Model,
    model3: &mut Model,
    model4: &mut Model,
    model5: &mut Model,
    model6: &mut Model,
    model6len: &mut Model,
    model7: &mut Model,
    bits: &mut BitReader,
    h: &mut u16,
    l: &mut u16,
    c: &mut u16,
    window: &mut Vec<u8>,
    window_posn: usize,
    output: &mut Vec<u8>,
    file_end: usize,
    window_bits: u8,
) -> (r: Result<usize, QtmError>)
    requires
        10 <= window_bits <= 21,
        old(window).len() == pow2(window_bits as nat),
        1024 <= old(window).len() <= 0x0020_0000,
        window_posn < old(window).len(),
        old(output).len() < file_end,
        old(bits).wf(),
        *old(l) <= *old(h),
        *old(h) - *old(l) >= 0x4001,
        old(model0).wf() && old(model0).total() <= 3800 && old(model0).entries >= 1,
        old(model1).wf() && old(model1).total() <= 3800 && old(model1).entries >= 1,
        old(model2).wf() && old(model2).total() <= 3800 && old(model2).entries >= 1,
        old(model3).wf() && old(model3).total() <= 3800 && old(model3).entries >= 1,
        old(model4).wf() && old(model4).total() <= 3800 && old(model4).entries >= 1,
        old(model5).wf() && old(model5).total() <= 3800 && old(model5).entries >= 1,
        old(model6).wf() && old(model6).total() <= 3800 && old(model6).entries >= 1,
        old(model6len).wf() && old(model6len).total() <= 3800 && old(model6len).entries >= 1,
        old(model7).wf() && old(model7).total() <= 3800 && old(model7).entries >= 1,
        old(model4).syms_below(2 * (window_bits as int)),
        old(model5).syms_below(2 * (window_bits as int)),
        old(model6).syms_below(2 * (window_bits as int)),
        old(model6len).syms_below(27),
        old(model7).syms_below(7),
    ensures
        r is Ok,
        final(bits).wf(),
        *final(l) <= *final(h),
        *final(h) - *final(l) >= 0x4001,
        final(model0).wf() && final(model0).total() <= 3800 && final(model0).entries
            == old(model0).entries,
        final(model1).wf() && final(model1).total() <= 3800 && final(model1).entries
            == old(model1).entries,
        final(model2).wf() && final(model2).total() <= 3800 && final(model2).entries
            == old(model2).entries,
        final(model3).wf() && final(model3).total() <= 3800 && final(model3).entries
            == old(model3).entries,
        final(model4).wf() && final(model4).total() <= 3800 && final(model4).entries
            == old(model4).entries,
        final(model5).wf() && final(model5).total() <= 3800 && final(model5).entries
            == old(model5).entries,
        final(model6).wf() && final(model6).total() <= 3800 && final(model6).entries
            == old(model6).entries,
        final(model6len).wf() && final(model6len).total() <= 3800 && final(model6len).entries
            == old(model6len).entries,
        final(model7).wf() && final(model7).total() <= 3800 && final(model7).entries
            == old(model7).entries,
        final(model4).syms_from(*old(model4)),
        final(model5).syms_from(*old(model5)),
        final(model6).syms_from(*old(model6)),
        final(model6len).syms_from(*old(model6len)),
        final(model7).syms_from(*old(model7)),
        final(window).len() == old(window).len(),
        old(output).len() < final(output).len() <= file_end,
        r matches Ok(p) ==> p < old(window).len(),
        r matches Ok(p) ==> view_state(
            *final(model0),
            *final(model1),
            *final(model2),
            *final(model3),
            *final(model4),
            *final(model5),
            *final(model6),
            *final(model6len),
            *final(model7),
            *final(h),
            *final(l),
            *final(c),
            *final(bits),
            final(window)@,
            p as int,
            final(output)@,
        ) == spec_select_step(
            view_state(
                *old(model0),
                *old(model1),
                *old(model2),
                *old(model3),
                *old(model4),
                *old(model5),
                *old(model6),
                *old(model6len),
                *old(model7),
                *old(h),
                *old(l),
                *old(c),
                *old(bits),
                old(window)@,
                window_posn as int,
                old(output)@,
            ),
            file_end - old(output)@.len(),
        ),
{
    let ghost wb = window_bits as nat;
    let window_size: usize = window.len();
    let mut posn: usize = window_posn;
    let ghost stv = view_state(
        *model0, *model1, *model2, *model3, *model4, *model5, *model6, *model6len, *model7,
        *h, *l, *c, *bits, window@, posn as int, output@,
    );
    let ghost rem_old = file_end - output@.len();
            proof {
                assert(model7.syms@[0].cumfreq >= model7.syms@[model7.entries as int].cumfreq
                    + model7.entries);
            }
            let selector = match decode_symbol(model7, bits, h, l, c) {
                Ok(s) => s,
                Err(e) => {
                    return Err(e);
                },
            };
            assert(selector < 7);
            let ghost sd0 = spec_state_decode(stv, 8);
            let ghost st1g = sd0.1;
            proof {
                assert(selector == sd0.0) by {
                    reveal(view_state);
                    reveal(spec_state_decode);
                    reveal(spec_decode);
                }
                assert(view_state(
                    *model0, *model1, *model2, *model3, *model4, *model5, *model6, *model6len,
                    *model7, *h, *l, *c, *bits, window@, posn as int, output@,
                ) == st1g) by {
                    reveal(view_state);
                    reveal(spec_state_decode);
                    reveal(spec_decode);
                    assert(view_state(
                        *model0, *model1, *model2, *model3, *model4, *model5, *model6,
                        *model6len, *model7, *h, *l, *c, *bits, window@, posn as int, output@,
                    ).models =~= st1g.models);
                }
            }

            if selector < 4 {
                // A literal byte, split into four buckets by the selector.
                let sym: u16;
                if selector == 0 {
                    proof {
                        assert(model0.syms@[0].cumfreq >= model0.syms@[model0.entries as int].cumfreq
                            + model0.entries);
                    }
                    sym = match decode_symbol(model0, bits, h, l, c) {
                        Ok(s) => s,
                        Err(e) => {
                            return Err(e);
                        },
                    };
                } else if selector == 1 {
                    proof {
                        assert(model1.syms@[0].cumfreq >= model1.syms@[model1.entries as int].cumfreq
                            + model1.entries);
                    }
                    sym = match decode_symbol(model1, bits, h, l, c) {
                        Ok(s) => s,
                        Err(e) => {
                            return Err(e);
                        },
                    };
                } else if selector == 2 {
                    proof {
                        assert(model2.syms@[0].cumfreq >= model2.syms@[model2.entries as int].cumfreq
                            + model2.entries);
                    }
                    sym = match decode_symbol(model2, bits, h, l, c) {
                        Ok(s) => s,
                        Err(e) => {
                            return Err(e);
                        },
                    };
                } else {
                    proof {
                        assert(model3.syms@[0].cumfreq >= model3.syms@[model3.entries as int].cumfreq
                            + model3.entries);
                    }
                    sym = match decode_symbol(model3, bits, h, l, c) {
                        Ok(s) => s,
                        Err(e) => {
                            return Err(e);
                        },
                    };
                }
                let ghost sd1 = spec_state_decode(st1g, selector as int);
                proof {
                    assert(sym == sd1.0) by {
                        reveal(view_state);
                        reveal(spec_state_decode);
                        reveal(spec_decode);
                    }
                    assert(view_state(
                        *model0, *model1, *model2, *model3, *model4, *model5, *model6, *model6len,
                        *model7, *h, *l, *c, *bits, window@, posn as int, output@,
                    ) == sd1.1) by {
                        reveal(view_state);
                        reveal(spec_state_decode);
                        reveal(spec_decode);
                        assert(view_state(
                            *model0, *model1, *model2, *model3, *model4, *model5, *model6,
                            *model6len, *model7, *h, *l, *c, *bits, window@, posn as int,
                            output@,
                        ).models =~= sd1.1.models);
                    }
                }
                let byte = sym as u8;
                window[posn] = byte;
                posn = (posn + 1) % window_size;
                output.push(byte);
                proof {
                    assert(view_state(
                        *model0, *model1, *model2, *model3, *model4, *model5, *model6, *model6len,
                        *model7, *h, *l, *c, *bits, window@, posn as int, output@,
                    ) == spec_select_step(stv, rem_old)) by {
                        reveal(view_state);
                        reveal(spec_select_step);
                    }
                }
            } else {
                if selector == 4 || selector == 5 {
                    posn = match match45_step(
                    model0,
                    model1,
                    model2,
                    model3,
                    model4,
                    model5,
                    model6,
                    model6len,
                    model7,
                    bits,
                    h,
                    l,
                    c,
                    window,
                    posn,
                    output,
                    file_end,
                    window_bits,
                    selector,
                    Ghost(stv),
                    Ghost(st1g),
                    Ghost(rem_old),
                ) {
                        Ok(p) => p,
                        Err(e) => {
                            return Err(e);
                        },
                    };
                } else if selector == 6 {
                    posn = match match6_step(
                    model0,
                    model1,
                    model2,
                    model3,
                    model4,
                    model5,
                    model6,
                    model6len,
                    model7,
                    bits,
                    h,
                    l,
                    c,
                    window,
                    posn,
                    output,
                    file_end,
                    window_bits,
                    selector,
                    Ghost(stv),
                    Ghost(st1g),
                    Ghost(rem_old),
                ) {
                        Ok(p) => p,
                        Err(e) => {
                            return Err(e);
                        },
                    };
                } else {
                    return Err(QtmError::InvalidSelector);
                }
            }
    proof {
        assert(view_state(
            *model0, *model1, *model2, *model3, *model4, *model5, *model6, *model6len,
            *model7, *h, *l, *c, *bits, window@, posn as int, output@,
        ) == spec_select_step(stv, rem_old));
    }
    Ok(posn)
}

/// Decompress a Quantum compressed data stream into the concatenation of
/// the per-file byte sequences.
///
/// The stream is decoded with nine adaptive models and a single arithmetic
/// coder whose state persists across file boundaries; between adjacent
/// files a 16-bit marker is consumed from the raw bit stream and
/// discarded. A truncated payload is not an error: past the end of the
/// input the bit reader synthesizes zero bits, so decoding always produces
/// exactly the declared number of bytes.
#[verifier::rlimit(100)]
pub fn quantum_decompress(compressed_data: Vec<u8>, file_sizes: &[u32], window_bits: u8) -> (r:
    Result<Vec<u8>, QtmError>)
    requires
        10 <= window_bits <= 21,
        spec_total_size(file_sizes@) <= usize::MAX,
    ensures
        r is Ok,
        r matches Ok(out) ==> out@.len() == spec_total_size(file_sizes@),
        r matches Ok(out) ==> out@ == spec_decompress(
            compressed_data,
            file_sizes@,
            window_bits as int,
        ),
{
    let ghost wb = window_bits as nat;
    let ghost sizes = file_sizes@;
    let ghost st0 = spec_init_state(compressed_data, window_bits as int);
    let ghost full_run = spec_run_files(st0, sizes, 0);
    let num_files: usize = file_sizes.len();

    // Total declared output size; the requires keeps the sum in range.
    let mut total_output_size: usize = 0;
    let mut k: usize = 0;
    while k < num_files
        invariant
            k <= num_files,
            sizes == file_sizes@,
            num_files == sizes.len(),
            spec_total_size(sizes) <= usize::MAX,
            total_output_size == sum_prefix(sizes, k as int),
        decreases num_files - k,
    {
        proof {
            lemma_sum_prefix_mono(sizes, k as int + 1, sizes.len() as int);
            lemma_sum_prefix_nonneg(sizes, k as int);
        }
        total_output_size = total_output_size + (file_sizes[k] as usize);
        k = k + 1;
    }

    // The sliding window: 2^window_bits zero bytes.
    proof {
        lemma2_to64();
        if wb < 21 {
            lemma_pow2_strictly_increases(wb, 21);
        }
        if 10 < wb {
            lemma_pow2_strictly_increases(10, wb);
        }
        lemma_u32_shl_is_mul(1u32, window_bits as u32);
    }
    let ws32: u32 = 1u32 << (window_bits as u32);
    let window_size: usize = ws32 as usize;
    assert(window_size == pow2(wb));
    assert(1024 <= window_size <= 0x0020_0000);
    let mut window: Vec<u8> = Vec::with_capacity(window_size);
    let mut zi: usize = 0;
    while zi < window_size
        invariant
            zi <= window_size,
            window@.len() == zi,
            forall|j: int| 0 <= j < zi ==> window@[j] == 0,
        decreases window_size - zi,
    {
        window.push(0u8);
        zi = zi + 1;
    }
    let mut window_posn: usize = 0;
    let mut output: Vec<u8> = Vec::with_capacity(total_output_size);

    let mut bits = BitReader::new(compressed_data);

    // The nine adaptive models: four literal buckets, three position-slot
    // models, the length-slot model and the top-level selector model.
    let i2: usize = (window_bits as usize) * 2;
    let mut model0 = Model::new(0, 64);
    let mut model1 = Model::new(64, 64);
    let mut model2 = Model::new(128, 64);
    let mut model3 = Model::new(192, 64);
    let mut model4 = Model::new(0, if i2 > 24 { 24 } else { i2 });
    let mut model5 = Model::new(0, if i2 > 36 { 36 } else { i2 });
    let mut model6 = Model::new(0, i2);
    let mut model6len = Model::new(0, 27);
    let mut model7 = Model::new(0, 7);

    // Arithmetic coder registers; C is seeded with the first 16 stream bits.
    let mut h: u16 = 0xFFFF;
    let mut l: u16 = 0;
    let mut c: u16 = bits.read_bits(16) as u16;

    proof {
        reveal(view_state);
        reveal(spec_init_state);
        reveal(spec_init_model);
        assert(bits == st0.rd);
        assert(c == st0.c);
        assert(model0.syms@ =~= spec_init_model(0, 64).0);
        assert(model1.syms@ =~= spec_init_model(64, 64).0);
        assert(model2.syms@ =~= spec_init_model(128, 64).0);
        assert(model3.syms@ =~= spec_init_model(192, 64).0);
        assert(model4.syms@ =~= spec_init_model(0, if 2 * (wb as int) > 24 { 24 } else { 2 * (wb as int) }).0);
        assert(model5.syms@ =~= spec_init_model(0, if 2 * (wb as int) > 36 { 36 } else { 2 * (wb as int) }).0);
        assert(model6.syms@ =~= spec_init_model(0, 2 * (wb as int)).0);
        assert(model6len.syms@ =~= spec_init_model(0, 27).0);
        assert(model7.syms@ =~= spec_init_model(0, 7).0);
        assert(window@ =~= st0.window);
        assert(output@ =~= Seq::<u8>::empty());
        assert(view_state(
            model0, model1, model2, model3, model4, model5, model6, model6len, model7,
            h, l, c, bits, window@, window_posn as int, output@,
        ).models =~= st0.models);
        assert(view_state(
            model0, model1, model2, model3, model4, model5, model6, model6len, model7,
            h, l, c, bits, window@, window_posn as int, output@,
        ) == st0);
    }

    let mut file_idx: usize = 0;
    while file_idx < num_files
        invariant
            sizes == file_sizes@,
            num_files == sizes.len(),
            file_idx <= num_files,
            spec_total_size(sizes) <= usize::MAX,
            total_output_size == spec_total_size(sizes),
            output@.len() == sum_prefix(sizes, file_idx as int),
            window_size == pow2(wb),
            1024 <= window_size <= 0x0020_0000,
            window@.len() == window_size,
            window_posn < window_size,
            10 <= wb <= 21,
            wb == window_bits as nat,
            bits.wf(),
            l <= h,
            h - l >= 0x4001,
            model0.wf() && model0.total() <= 3800 && model0.entries >= 1,
            model1.wf() && model1.total() <= 3800 && model1.entries >= 1,
            model2.wf() && model2.total() <= 3800 && model2.entries >= 1,
            model3.wf() && model3.total() <= 3800 && model3.entries >= 1,
            model4.wf() && model4.total() <= 3800 && model4.entries >= 1,
            model5.wf() && model5.total() <= 3800 && model5.entries >= 1,
            model6.wf() && model6.total() <= 3800 && model6.entries >= 1,
            model6len.wf() && model6len.total() <= 3800 && model6len.entries >= 1,
            model7.wf() && model7.total() <= 3800 && model7.entries >= 1,
            model4.syms_below(2 * (wb as int)),
            model5.syms_below(2 * (wb as int)),
            model6.syms_below(2 * (wb as int)),
            model6len.syms_below(27),
            model7.syms_below(7),
            spec_run_files(
                view_state(
                    model0, model1, model2, model3, model4, model5, model6, model6len,
                    model7, h, l, c, bits, window@, window_posn as int, output@,
                ),
                sizes,
                file_idx as int,
            ) == full_run,
        decreases num_files - file_idx,
    {
        proof {
            lemma_sum_prefix_mono(sizes, file_idx as int + 1, sizes.len() as int);
            lemma_sum_prefix_nonneg(sizes, file_idx as int);
        }
        let fsize: usize = file_sizes[file_idx] as usize;
        let file_end: usize = output.len() + fsize;
        proof {
            reveal(spec_resume);
            assert(spec_resume(
                view_state(
                    model0, model1, model2, model3, model4, model5, model6, model6len,
                    model7, h, l, c, bits, window@, window_posn as int, output@,
                ),
                fsize as int,
                sizes,
                file_idx as int,
            ) == full_run);
        }

        while output.len() < file_end
            invariant
                sizes == file_sizes@,
                num_files == sizes.len(),
                file_idx < num_files,
                spec_total_size(sizes) <= usize::MAX,
                file_end == sum_prefix(sizes, file_idx as int + 1),
                file_end <= spec_total_size(sizes),
                output@.len() <= file_end,
                window_size == pow2(wb),
                1024 <= window_size <= 0x0020_0000,
                window@.len() == window_size,
                window_posn < window_size,
                10 <= wb <= 21,
                wb == window_bits as nat,
                bits.wf(),
                l <= h,
                h - l >= 0x4001,
                model0.wf() && model0.total() <= 3800 && model0.entries >= 1,
                model1.wf() && model1.total() <= 3800 && model1.entries >= 1,
                model2.wf() && model2.total() <= 3800 && model2.entries >= 1,
                model3.wf() && model3.total() <= 3800 && model3.entries >= 1,
                model4.wf() && model4.total() <= 3800 && model4.entries >= 1,
                model5.wf() && model5.total() <= 3800 && model5.entries >= 1,
                model6.wf() && model6.total() <= 3800 && model6.entries >= 1,
                model6len.wf() && model6len.total() <= 3800 && model6len.entries >= 1,
                model7.wf() && model7.total() <= 3800 && model7.entries >= 1,
                model4.syms_below(2 * (wb as int)),
                model5.syms_below(2 * (wb as int)),
                model6.syms_below(2 * (wb as int)),
                model6len.syms_below(27),
                model7.syms_below(7),
                spec_resume(
                    view_state(
                        model0, model1, model2, model3, model4, model5, model6, model6len,
                        model7, h, l, c, bits, window@, window_posn as int, output@,
                    ),
                    file_end - output@.len(),
                    sizes,
                    file_idx as int,
                ) == full_run,
            decreases file_end - output@.len(),
        {
            let ghost stv = view_state(
                model0, model1, model2, model3, model4, model5, model6, model6len, model7,
                h, l, c, bits, window@, window_posn as int, output@,
            );
            let ghost rem_old = file_end - output@.len();
            window_posn = match decompress_step(
                &mut model0,
                &mut model1,
                &mut model2,
                &mut model3,
                &mut model4,
                &mut model5,
                &mut model6,
                &mut model6len,
                &mut model7,
                &mut bits,
                &mut h,
                &mut l,
                &mut c,
                &mut window,
                window_posn,
                &mut output,
                file_end,
                window_bits,
            ) {
                Ok(p) => p,
                Err(e) => {
                    return Err(e);
                },
            };
            proof {
                reveal(spec_resume);
                reveal(view_state);
                let stn = view_state(
                    model0, model1, model2, model3, model4, model5, model6, model6len, model7,
                    h, l, c, bits, window@, window_posn as int, output@,
                );
                assert(stn == spec_select_step(stv, rem_old));
                assert(stn.out.len() - stv.out.len() >= 1);
                assert(spec_run_file(stv, rem_old) == spec_run_file(
                    stn,
                    file_end - output@.len(),
                ));
            }
        }

        // Between files: consume the 16-bit marker from the raw bit
        // stream. The coder registers and the models persist unchanged.
        let ghost st_done = view_state(
            model0, model1, model2, model3, model4, model5, model6, model6len, model7,
            h, l, c, bits, window@, window_posn as int, output@,
        );
        proof {
            reveal(spec_resume);
            assert(spec_run_file(st_done, 0) == st_done);
        }
        if file_idx < num_files - 1 {
            let ghost before_marker = bits.consumed@;
            let _marker = bits.read_bits(16);
            proof {
                assert(bits.consumed@ == before_marker + 16);
                assert(bits == st_done.rd.spec_read_state(16)) by {
                    reveal(view_state);
                }
            }
        }
        proof {
            reveal(view_state);
            reveal(spec_resume);
            assert(spec_run_files(
                view_state(
                    model0, model1, model2, model3, model4, model5, model6, model6len,
                    model7, h, l, c, bits, window@, window_posn as int, output@,
                ),
                sizes,
                file_idx as int + 1,
            ) == full_run);
        }
        file_idx = file_idx + 1;
    }

    proof {
        reveal(view_state);
        assert(view_state(
            model0, model1, model2, model3, model4, model5, model6, model6len, model7,
            h, l, c, bits, window@, window_posn as int, output@,
        ) == full_run);
        assert(output@.len() == spec_total_size(sizes));
        assert(output@ == spec_decompress(compressed_data, sizes, window_bits as int));
    }
    Ok(output)
}

} // verus!
