//! Symbol decoding over an adaptive model: scaled-frequency computation,
//! symbol lookup, interval narrowing, model update and renormalization.
//!
//! The coder keeps three 16-bit registers `H`, `L` and `C`. Between decodes
//! the interval is kept "normal": `L <= H` and `H - L >= 0x4001`, which is
//! what makes the narrowing arithmetic safe. Transiently `C` may fall below
//! `L`; the scaled-frequency computation deliberately wraps.

use crate::bitreader::{lemma_read_state_wf, BitReader};
use crate::errors::QtmError;
use crate::model::{
    spec_bump, spec_update_shift, spec_update_syms, sym_ids, Model, ModelSym,
};
use vstd::arithmetic::div_mod::{
    lemma_div_is_ordered, lemma_div_multiples_vanish, lemma_div_plus_one,
};
use vstd::prelude::*;

verus! {

/// The scaled frequency the decoder compares against the cumulative
/// frequencies: computed with wrapping 32-bit arithmetic on the register
/// differences, then masked to 16 bits.
pub open spec fn spec_symf(h: u16, l: u16, c: u16, total: int) -> int {
    let range = ((h - l) % 0x10000) + 1;
    let t1 = (c - l + 1) % 0x1_0000_0000;
    let t2 = (t1 * total) % 0x1_0000_0000;
    let t3 = (t2 - 1) % 0x1_0000_0000;
    (t3 / range) % 0x10000
}

/// Index of the first record at or after `i` whose cumulative frequency is
/// at most `symf`, or `entries` if there is none.
pub open spec fn spec_pick_index(s: Seq<ModelSym>, entries: int, symf: int, i: int) -> int
    decreases (if i < entries { entries - i } else { 0int }),
{
    if i >= entries {
        entries
    } else if s[i].cumfreq <= symf {
        i
    } else {
        spec_pick_index(s, entries, symf, i + 1)
    }
}

/// The H register after the interval is narrowed to the decoded symbol's
/// cumulative-frequency bracket.
#[verifier::opaque]
pub open spec fn spec_narrowed_h(s: Seq<ModelSym>, entries: int, h: u16, l: u16, c: u16) -> u16 {
    let total = s[0].cumfreq as int;
    let idx = spec_pick_index(s, entries, spec_symf(h, l, c, total), 1);
    (l + ((s[idx - 1].cumfreq as int) * (h - l + 1)) / total - 1) as u16
}

/// The L register after the interval is narrowed to the decoded symbol's
/// cumulative-frequency bracket.
#[verifier::opaque]
pub open spec fn spec_narrowed_l(s: Seq<ModelSym>, entries: int, h: u16, l: u16, c: u16) -> u16 {
    let total = s[0].cumfreq as int;
    let idx = spec_pick_index(s, entries, spec_symf(h, l, c, total), 1);
    (l + ((s[idx].cumfreq as int) * (h - l + 1)) / total) as u16
}

/// The coder registers and reader after renormalization: while the top
/// bits of L and H agree, or L and H straddle the midpoint in the
/// underflow pattern, the registers shift left (after folding the second
/// bit out of C in the underflow case) and C gains exactly one fresh
/// stream bit per shift.
pub open spec fn spec_renorm(h: u16, l: u16, c: u16, rd: BitReader) -> (u16, u16, u16, BitReader)
    decreases 0x10000 - (h - l),
        when l <= h && rd.wf()
    via spec_renorm_decreases
{
    if (l & 0x8000) != (h & 0x8000) && !((l & 0x4000) != 0 && (h & 0x4000) == 0) {
        (h, l, c, rd)
    } else {
        let straddle = (l & 0x8000) != (h & 0x8000);
        let h1 = if straddle {
            h | 0x4000
        } else {
            h
        };
        let l1 = if straddle {
            l & 0x3FFF
        } else {
            l
        };
        let c1 = if straddle {
            c ^ 0x4000
        } else {
            c
        };
        let fresh = rd.spec_read_value(1);
        let rd2 = rd.spec_read_state(1);
        spec_renorm(((h1 << 1) | 1) as u16, (l1 << 1) as u16, ((c1 << 1) | (fresh as u16)) as u16, rd2)
    }
}

#[via_fn]
proof fn spec_renorm_decreases(h: u16, l: u16, c: u16, rd: BitReader) {
    if l <= h && rd.wf() {
        lemma_read_state_wf(rd);
        if (l & 0x8000) == (h & 0x8000) {
            lemma_renorm_shift_step(l, h, (l << 1) as u16, ((h << 1) | 1) as u16);
        } else if (l & 0x4000) != 0 && (h & 0x4000) == 0 {
            lemma_renorm_underflow_step(
                l,
                h,
                ((l & 0x3FFF) << 1) as u16,
                (((h | 0x4000) << 1) | 1) as u16,
            );
        }
    }
}

/// Decode one symbol from `model` using arithmetic coding, updating the
/// model frequencies (with a rescale once the total exceeds 3800) and
/// renormalizing the coder registers, pulling fresh bits as needed.
///
/// Fails exactly when the model's total frequency is zero; with at least
/// one coded symbol in the model this cannot happen.
#[verifier::rlimit(60)]
pub fn decode_symbol(
    model: &mut Model,
    bits: &mut BitReader,
    h: &mut u16,
    l: &mut u16,
    c: &mut u16,
) -> (r: Result<u16, QtmError>)
    requires
        old(model).wf(),
        old(model).total() <= 3800,
        old(bits).wf(),
        *old(l) <= *old(h),
        *old(h) - *old(l) >= 0x4001,
    ensures
        final(model).wf(),
        final(model).total() <= 3800,
        final(model).entries == old(model).entries,
        final(model).syms_from(*old(model)),
        final(bits).wf(),
        final(bits).data@ == old(bits).data@,
        *final(l) <= *final(h),
        *final(h) - *final(l) >= 0x4001,
        r is Err <==> old(model).total() == 0,
        r matches Ok(s) ==> ({
            let idx = spec_pick_index(
                old(model).syms@,
                old(model).entries as int,
                spec_symf(*old(h), *old(l), *old(c), old(model).total()),
                1,
            );
            1 <= idx <= old(model).entries && s == old(model).syms@[idx - 1].sym
        }),
        final(model).syms@[old(model).entries as int] == old(model).syms@[old(
            model,
        ).entries as int],
        sym_ids(final(model).syms@, old(model).entries as int).to_multiset() == sym_ids(
            old(model).syms@,
            old(model).entries as int,
        ).to_multiset(),
        r is Ok ==> ({
            let e = old(model).entries as int;
            let idx = spec_pick_index(
                old(model).syms@,
                e,
                spec_symf(*old(h), *old(l), *old(c), old(model).total()),
                1,
            );
            let bumped = spec_bump(old(model).syms@, idx);
            &&& final(model).syms@ == (if bumped[0].cumfreq > 3800 {
                spec_update_syms(bumped, e, old(model).shift_left as int)
            } else {
                bumped
            })
            &&& final(model).shift_left as int == (if bumped[0].cumfreq > 3800 {
                spec_update_shift(old(model).shift_left as int)
            } else {
                old(model).shift_left as int
            })
            &&& (*final(h), *final(l), *final(c), *final(bits)) == spec_renorm(
                spec_narrowed_h(old(model).syms@, e, *old(h), *old(l), *old(c)),
                spec_narrowed_l(old(model).syms@, e, *old(h), *old(l), *old(c)),
                *old(c),
                *old(bits),
            )
        }),
{
    let ghost e = model.entries as int;
    let h_val: u32 = *h as u32;
    let l_val: u32 = *l as u32;
    let c_val: u32 = *c as u32;

    // Interval width and total frequency of the model.
    let range: u32 = ((h_val + 0x10000 - l_val) % 0x10000) + 1;
    let total: u16 = model.syms[0].cumfreq;

    if total == 0 || range == 0 {
        return Err(QtmError::ZeroFrequencyOrRange);
    }
    // An empty model has a zero total (its head is the sentinel).
    assert(e >= 1);

    // Scaled frequency, with deliberate wrap-around on the subtractions.
    let t1: u64 = ((c_val as u64) + 0x1_0000_0000 - (l_val as u64) + 1) % 0x1_0000_0000;
    proof {
        assert(t1 * (total as u64) < 0x1_0000_0000_0000_0000) by (nonlinear_arith)
            requires
                t1 < 0x1_0000_0000,
                (total as u64) < 0x10000,
        ;
    }
    let t2: u64 = (t1 * (total as u64)) % 0x1_0000_0000;
    let t3: u64 = (t2 + 0x1_0000_0000 - 1) % 0x1_0000_0000;
    let symf: u32 = ((t3 / ((h_val + 0x10000 - l_val) % 0x10000 + 1) as u64) % 0x10000) as u32;
    let ghost symf_spec = spec_symf(*old(h), *old(l), *old(c), total as int);
    assert(symf == symf_spec);

    // Find the first record whose cumulative frequency bracket contains symf.
    let ghost idx = spec_pick_index(model.syms@, e, symf_spec, 1);
    let mut i: usize = 1;
    while i < model.entries && model.syms[i].cumfreq as u32 > symf
        invariant
            model.wf(),
            model.entries == e,
            1 <= i <= e,
            symf == symf_spec,
            idx == spec_pick_index(model.syms@, e, symf_spec, i as int),
        decreases e - i,
    {
        i = i + 1;
    }
    assert(i == idx);

    let sym: u16 = model.syms[i - 1].sym;

    // Narrow the interval.
    let range2: u32 = (h_val - l_val) + 1;
    let hi_cum: u32 = model.syms[i - 1].cumfreq as u32;
    let lo_cum: u32 = model.syms[i].cumfreq as u32;
    proof {
        let hi = hi_cum as int;
        let lo = lo_cum as int;
        let r2 = range2 as int;
        let t = total as int;
        assert(hi >= lo + 1);
        assert(hi <= t);
        assert(t <= r2);
        assert(hi * r2 <= t * r2) by (nonlinear_arith)
            requires
                hi <= t,
                r2 >= 0,
        ;
        assert(t * r2 <= 3800 * 65536) by (nonlinear_arith)
            requires
                t <= 3800,
                0 <= r2 <= 65536,
        ;
        assert(lo * r2 + r2 <= hi * r2) by (nonlinear_arith)
            requires
                lo + 1 <= hi,
                r2 >= 0,
        ;
        assert(0 <= lo * r2) by (nonlinear_arith)
            requires
                lo >= 0,
                r2 >= 0,
        ;
        lemma_div_multiples_vanish(range2 as int, total as int);
        lemma_div_is_ordered(hi * r2, t * r2, t);
        lemma_div_plus_one(lo * r2, t);
        lemma_div_is_ordered(lo * r2 + t, hi * r2, t);
        lemma_div_is_ordered(0, lo * r2, t);
        assert((hi * r2) / t >= (lo * r2) / t + 1);
        assert((hi * r2) / t <= r2);
    }
    let new_h: u32 = l_val + (hi_cum * range2) / (total as u32) - 1;
    let new_l: u32 = l_val + (lo_cum * range2) / (total as u32);
    assert(new_l <= new_h);
    assert(new_h <= h_val);
    *h = new_h as u16;
    *l = new_l as u16;
    proof {
        assert(*h == spec_narrowed_h(old(model).syms@, e, *old(h), *old(l), *old(c))) by {
            reveal(spec_narrowed_h);
        }
        assert(*l == spec_narrowed_l(old(model).syms@, e, *old(h), *old(l), *old(c))) by {
            reveal(spec_narrowed_l);
        }
    }

    // Bump the chosen symbol and every record ahead of it.
    let ghost before_bump = model.syms@;
    let mut j: usize = i;
    while j > 0
        invariant
            model.entries == e,
            model.syms@.len() == e + 1,
            model.shift_left == old(model).shift_left,
            1 <= model.shift_left <= 50,
            j <= i <= e,
            e <= 64,
            before_bump.len() == e + 1,
            before_bump[e].cumfreq == 0,
            before_bump[0].cumfreq <= 3800,
            forall|a: int, b: int|
                0 <= a < b <= e ==> before_bump[a].cumfreq >= before_bump[b].cumfreq + (b - a),
            forall|k: int| #![trigger model.syms@[k]] i <= k <= e ==> model.syms@[k] == before_bump[k],
            forall|k: int|
                #![trigger model.syms@[k]]
                0 <= k < j ==> model.syms@[k] == before_bump[k],
            forall|k: int|
                #![trigger model.syms@[k]]
                j <= k < i ==> model.syms@[k].sym == before_bump[k].sym
                    && model.syms@[k].cumfreq == before_bump[k].cumfreq + 8,
        decreases j,
    {
        j = j - 1;
        let cur = model.syms[j];
        proof {
            assert(cur == before_bump[j as int]);
            if 0 < j {
                assert(before_bump[0].cumfreq >= before_bump[j as int].cumfreq + j);
            }
        }
        model.syms[j] = ModelSym { sym: cur.sym, cumfreq: cur.cumfreq + 8 };
    }
    proof {
        assert forall|a: int, b: int| 0 <= a < b <= e implies model.syms@[a].cumfreq
            >= model.syms@[b].cumfreq + (b - a) by {
            assert(before_bump[a].cumfreq >= before_bump[b].cumfreq + (b - a));
        }
        assert(model.syms@ == spec_bump(before_bump, i as int)) by {
            reveal(spec_bump);
            assert(model.syms@ =~= spec_bump(before_bump, i as int));
        }
        assert(sym_ids(model.syms@, e) =~= sym_ids(before_bump, e));
    }
    let ghost bumped_syms = model.syms@;

    // Rescale once the total frequency exceeds its cap.
    let ghost mid = *model;
    if model.syms[0].cumfreq > 3800 {
        model.update();
        proof {
            assert forall|k: int| #![trigger model.syms@[k]] 0 <= k < e implies exists|m: int|
                #![trigger old(model).syms@[m]]
                0 <= m < e && model.syms@[k].sym == old(model).syms@[m].sym by {
                let m0 = choose|m: int|
                    0 <= m < e && model.syms@[k].sym == mid.syms@[m].sym;
                assert(mid.syms@[m0].sym == old(model).syms@[m0].sym);
            }
            assert(model.syms@ == spec_update_syms(
                bumped_syms,
                e,
                old(model).shift_left as int,
            ));
            assert(model.shift_left as int == spec_update_shift(old(model).shift_left as int));
            assert(sym_ids(model.syms@, e).to_multiset() == sym_ids(
                old(model).syms@,
                e,
            ).to_multiset());
        }
    } else {
        proof {
            assert forall|k: int| #![trigger model.syms@[k]] 0 <= k < e implies exists|m: int|
                #![trigger old(model).syms@[m]]
                0 <= m < e && model.syms@[k].sym == old(model).syms@[m].sym by {
                assert(model.syms@[k].sym == old(model).syms@[k].sym);
            }
        }
    }

    // Renormalize until the interval is normal again, pulling one fresh
    // bit per shift.
    let ghost rn_h = *h;
    let ghost rn_l = *l;
    let ghost rn_c = *c;
    let ghost rn_bits = *bits;
    loop
        invariant_except_break
            *l <= *h,
            bits.wf(),
            bits.data@ == old(bits).data@,
            rn_l <= rn_h,
            rn_bits.wf(),
            spec_renorm(*h, *l, *c, *bits) == spec_renorm(rn_h, rn_l, rn_c, rn_bits),
        ensures
            *l <= *h,
            *h - *l >= 0x4001,
            bits.wf(),
            bits.data@ == old(bits).data@,
            (*h, *l, *c, *bits) == spec_renorm(rn_h, rn_l, rn_c, rn_bits),
        decreases 0x10000 - (*h - *l),
    {
        let ghost h0 = *h;
        let ghost l0 = *l;
        let ghost c0 = *c;
        let ghost b0 = *bits;
        let mut underflow = false;
        if (*l & 0x8000) != (*h & 0x8000) {
            if (*l & 0x4000) != 0 && (*h & 0x4000) == 0 {
                // Underflow straddle: fold out the second bit.
                *c = *c ^ 0x4000;
                *l = *l & 0x3FFF;
                *h = *h | 0x4000;
                underflow = true;
            } else {
                proof {
                    lemma_renorm_exit(*l, *h);
                    assert(spec_renorm(*h, *l, *c, *bits) == (*h, *l, *c, *bits));
                }
                break;
            }
        }
        *l = *l << 1;
        *h = (*h << 1) | 1;
        proof {
            if underflow {
                lemma_renorm_underflow_step(l0, h0, *l, *h);
            } else {
                lemma_renorm_shift_step(l0, h0, *l, *h);
            }
        }
        bits.ensure_bits(1);
        let fresh = bits.peek_bits(1);
        bits.remove_bits(1);
        *c = (*c << 1) | (fresh as u16);
        proof {
            assert(fresh == b0.spec_read_value(1));
            assert(*bits == b0.spec_read_state(1));
            assert(spec_renorm(h0, l0, c0, b0) == spec_renorm(*h, *l, *c, *bits));
        }
    }

    Ok(sym)
}

/// At the renormalization exit the top bits differ without an underflow
/// straddle, which keeps the interval at least `0x4001` wide.
proof fn lemma_renorm_exit(l: u16, h: u16)
    by (bit_vector)
    requires
        l <= h,
        (l & 0x8000) != (h & 0x8000),
        !((l & 0x4000) != 0 && (h & 0x4000) == 0),
    ensures
        h - l >= 0x4001,
{
}

/// A plain shift step (equal top bits) widens the interval.
proof fn lemma_renorm_shift_step(l0: u16, h0: u16, l2: u16, h2: u16)
    by (bit_vector)
    requires
        l0 <= h0,
        (l0 & 0x8000) == (h0 & 0x8000),
        l2 == l0 << 1,
        h2 == (h0 << 1) | 1,
    ensures
        l2 <= h2,
        h2 - l2 > h0 - l0,
{
}

/// An underflow correction followed by a shift also widens the interval.
proof fn lemma_renorm_underflow_step(l0: u16, h0: u16, l2: u16, h2: u16)
    by (bit_vector)
    requires
        l0 <= h0,
        (l0 & 0x8000) != (h0 & 0x8000),
        (l0 & 0x4000) != 0,
        (h0 & 0x4000) == 0,
        l2 == (l0 & 0x3FFF) << 1,
        h2 == ((h0 | 0x4000) << 1) | 1,
    ensures
        l2 <= h2,
        h2 - l2 > h0 - l0,
{
}

} // verus!
