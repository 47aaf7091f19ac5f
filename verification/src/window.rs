//! LZ77 match synthesis through the sliding window.
//!
//! A match is copied one byte at a time: each step reads a byte from the
//! source cursor, writes it at the write cursor, appends it to the output,
//! and advances both cursors modulo the window size. The per-byte copy is
//! what makes overlapping matches (offset smaller than length) replicate
//! recently written bytes.

use vstd::arithmetic::div_mod::{
    lemma_add_mod_noop, lemma_fundamental_div_mod, lemma_mod_add_multiples_vanish,
    lemma_mod_division_less_than_divisor, lemma_small_mod,
};
use vstd::prelude::*;

verus! {

/// The byte written by step `k` of a match copy from `offset` bytes behind
/// `posn`: within the first `offset` steps it comes straight from the
/// window; beyond that it replicates the byte written `offset` steps
/// earlier.
pub open spec fn copied_byte(win: Seq<u8>, posn: int, offset: int, k: int) -> u8
    decreases k,
        when offset >= 1 && k >= 0 && win.len() >= 1
{
    if k < offset {
        win[(posn - offset + k) % (win.len() as int)]
    } else {
        copied_byte(win, posn, offset, k - offset)
    }
}

/// Two numbers whose difference lies strictly between 0 and `w` have
/// different remainders modulo `w`.
proof fn lemma_mod_distinct(a: int, b: int, w: int)
    requires
        0 < w,
        b < a,
        a - b < w,
    ensures
        a % w != b % w,
{
    if a % w == b % w {
        lemma_fundamental_div_mod(a, w);
        lemma_fundamental_div_mod(b, w);
        let qa = a / w;
        let qb = b / w;
        assert(a - b == w * (qa - qb)) by (nonlinear_arith)
            requires
                a == w * qa + a % w,
                b == w * qb + b % w,
                a % w == b % w,
        ;
        assert(w * (qa - qb) >= w || w * (qa - qb) <= 0) by (nonlinear_arith)
            requires
                w > 0,
        ;
        assert(false);
    }
}

/// Stepping a reduced cursor by one is addition before reduction.
proof fn lemma_mod_step(a: int, w: int)
    requires
        0 < w,
    ensures
        (a % w + 1) % w == (a + 1) % w,
{
    lemma_add_mod_noop(a, 1, w);
    if w == 1 {
    } else {
        lemma_small_mod(1nat, w as nat);
    }
}

/// Copy `count` bytes of a match located `offset` bytes behind the write
/// cursor: each byte is read from the window, written at the write cursor,
/// and appended to `output`; both cursors wrap modulo the window size.
/// Returns the write cursor after the copy, which has advanced by exactly
/// `count` positions modulo the window size.
pub fn copy_match(
    window: &mut Vec<u8>,
    window_posn: usize,
    output: &mut Vec<u8>,
    offset: usize,
    count: usize,
) -> (new_posn: usize)
    requires
        old(window).len() >= 1,
        old(window).len() <= 0x0020_0000,
        window_posn < old(window).len(),
        1 <= offset <= old(window).len(),
        count <= old(window).len(),
        old(output).len() + count <= usize::MAX,
    ensures
        final(window).len() == old(window).len(),
        new_posn == (window_posn + count) % (old(window).len() as int),
        new_posn < old(window).len(),
        final(output)@.len() == old(output)@.len() + count,
        final(output)@.subrange(0, old(output)@.len() as int) == old(output)@,
        forall|k: int|
            0 <= k < count ==> final(output)@[old(output)@.len() + k] == copied_byte(
                old(window)@,
                window_posn as int,
                offset as int,
                k,
            ),
        forall|m: int|
            #![trigger final(window)@[(window_posn + m) % (old(window).len() as int)]]
            0 <= m < count ==> final(window)@[(window_posn + m) % (old(window).len() as int)]
                == copied_byte(old(window)@, window_posn as int, offset as int, m),
        forall|idx: int|
            #![trigger final(window)@[idx]]
            0 <= idx < old(window).len() && (forall|m: int|
                #![trigger (window_posn + m) % (old(window).len() as int)]
                0 <= m < count ==> idx != (window_posn + m) % (old(window).len() as int))
                ==> final(window)@[idx] == old(window)@[idx],
{
    let w = window.len();
    let ghost w0 = w as int;
    let ghost win0 = window@;
    let ghost p0 = window_posn as int;
    let ghost off = offset as int;
    let ghost n0 = output@.len() as int;
    let mut src: usize = (window_posn + w - offset) % w;
    let mut posn: usize = window_posn;
    let mut j: usize = 0;
    proof {
        lemma_mod_division_less_than_divisor((window_posn + w - offset) as int, w0);
        lemma_small_mod(window_posn as nat, w as nat);
    }
    while j < count
        invariant
            window@.len() == w0,
            w == w0,
            w0 >= 1,
            win0.len() == w0,
            0 <= p0 < w0,
            1 <= off <= w0,
            count <= w0,
            0 <= j <= count,
            0 <= n0,
            n0 + count <= usize::MAX,
            src == (p0 + w0 - off + j) % w0,
            posn == (p0 + j) % w0,
            src < w0,
            posn < w0,
            output@.len() == n0 + j,
            forall|k: int| #![trigger output@[k]] 0 <= k < n0 ==> output@[k] == old(output)@[k],
            forall|k: int|
                #![trigger output@[n0 + k]]
                0 <= k < j ==> output@[n0 + k] == copied_byte(win0, p0, off, k),
            forall|m: int|
                #![trigger window@[(p0 + m) % w0]]
                0 <= m < j ==> window@[(p0 + m) % w0] == copied_byte(win0, p0, off, m),
            forall|idx: int|
                #![trigger window@[idx]]
                0 <= idx < w0 && (forall|m: int| #![trigger (p0 + m) % w0] 0 <= m < j ==> idx
                    != (p0 + m) % w0) ==> window@[idx] == win0[idx],
        decreases count - j,
    {
        proof {
            // The byte about to be read is the one `copied_byte` names.
            if j < off {
                assert forall|m: int| #![trigger (p0 + m) % w0] 0 <= m < j implies (p0 + w0
                    - off + j) % w0 != (p0 + m) % w0 by {
                    lemma_mod_distinct(p0 + w0 - off + j, p0 + m, w0);
                }
                assert(window@[src as int] == win0[src as int]);
                assert((p0 + w0 - off + j) % w0 == ((p0 - off + j) + w0) % w0);
                lemma_mod_add_multiples_vanish(p0 - off + j, w0);
            } else {
                lemma_mod_add_multiples_vanish(p0 + j - off, w0);
                assert((p0 + w0 - off + j) % w0 == (p0 + (j - off)) % w0);
                assert(window@[(p0 + (j - off)) % w0] == copied_byte(win0, p0, off, j - off));
            }
        }
        let byte = window[src];
        assert(byte == copied_byte(win0, p0, off, j as int));
        proof {
            // The write cursor has not been written yet this copy.
            assert forall|m: int| #![trigger (p0 + m) % w0] 0 <= m < j implies (p0 + j) % w0
                != (p0 + m) % w0 by {
                lemma_mod_distinct(p0 + j, p0 + m, w0);
            }
        }
        window[posn] = byte;
        let ghost out_pre = output@;
        output.push(byte);
        proof {
            assert forall|k: int| #![trigger output@[n0 + k]] 0 <= k < j + 1 implies output@[n0
                + k] == copied_byte(win0, p0, off, k) by {
                if k < j {
                    vstd::seq::lemma_seq_push_index_different_alt(out_pre, byte, n0 + k);
                    assert(output@[n0 + k] == out_pre[n0 + k]);
                } else {
                    assert(output@[n0 + k] == byte);
                }
            }
            assert forall|m: int| #![trigger window@[(p0 + m) % w0]] 0 <= m < j + 1 implies
                window@[(p0 + m) % w0] == copied_byte(win0, p0, off, m) by {
                if m < j {
                    lemma_mod_distinct(p0 + j, p0 + m, w0);
                }
            }
            lemma_mod_step(p0 + w0 - off + j, w0);
            lemma_mod_step(p0 + j, w0);
            lemma_mod_division_less_than_divisor(p0 + w0 - off + j + 1, w0);
            lemma_mod_division_less_than_divisor(p0 + j + 1, w0);
        }
        src = (src + 1) % w;
        posn = (posn + 1) % w;
        j = j + 1;
    }
    proof {
        assert(output@.subrange(0, n0) =~= old(output)@);
    }
    posn
}

/// A match with offset 1 replicates the byte immediately before the write
/// cursor: every copied byte equals that one byte, however long the match.
pub proof fn lemma_offset_one_replicates(win: Seq<u8>, posn: int, k: int)
    requires
        win.len() >= 1,
        0 <= posn < win.len(),
        0 <= k,
    ensures
        copied_byte(win, posn, 1, k) == win[(posn - 1) % (win.len() as int)],
    decreases k,
{
    if k >= 1 {
        lemma_offset_one_replicates(win, posn, k - 1);
    }
}

} // verus!
