//! Adaptive cumulative-frequency models for the arithmetic decoder.
//!
//! A model is an ordered list of symbol records, each holding a symbol
//! identifier and a cumulative frequency, with one trailing sentinel record
//! whose cumulative frequency is zero. The central invariant is that the
//! cumulative frequencies decrease strictly from head to sentinel; the head
//! holds the total frequency.

use vstd::prelude::*;

verus! {

/// One record of a frequency model: a symbol and its cumulative frequency.
#[derive(Clone, Copy)]
pub struct ModelSym {
    pub sym: u16,
    pub cumfreq: u16,
}

/// Sum of the cumulative-frequency fields of `s[lo..hi]`.
pub open spec fn csum(s: Seq<ModelSym>, lo: int, hi: int) -> int
    decreases hi - lo,
{
    if lo >= hi {
        0
    } else {
        s[lo].cumfreq + csum(s, lo + 1, hi)
    }
}

/// Identifiers of the coded symbols: the `sym` fields of the first `e`
/// records (the sentinel excluded).
pub open spec fn sym_ids(s: Seq<ModelSym>, e: int) -> Seq<u16> {
    s.subrange(0, e).map_values(|r: ModelSym| r.sym)
}

/// Cumulative frequency of record `i` after a halve-and-bump rescale:
/// halved, but bumped just above the (already rescaled) successor where
/// the halving broke strict monotonicity.
pub open spec fn spec_halved_cum(s: Seq<ModelSym>, e: int, i: int) -> u16
    decreases e - i,
{
    if i >= e {
        s[e].cumfreq
    } else {
        let nxt = spec_halved_cum(s, e, i + 1) as int;
        let half = (s[i].cumfreq as int) / 2;
        if half <= nxt {
            (nxt + 1) as u16
        } else {
            half as u16
        }
    }
}

/// The record list after a halve-and-bump rescale; symbol order and the
/// sentinel are untouched.
#[verifier::opaque]
pub open spec fn spec_halve(s: Seq<ModelSym>, e: int) -> Seq<ModelSym> {
    Seq::new(
        s.len(),
        |k: int|
            if 0 <= k < e {
                ModelSym { sym: s[k].sym, cumfreq: spec_halved_cum(s, e, k) }
            } else {
                s[k]
            },
    )
}

/// Cumulative frequencies converted to individual ones, incremented to
/// prevent zeros and halved; the sentinel is untouched.
#[verifier::opaque]
pub open spec fn spec_indiv(s: Seq<ModelSym>, e: int) -> Seq<ModelSym> {
    Seq::new(
        s.len(),
        |k: int|
            if 0 <= k < e {
                ModelSym {
                    sym: s[k].sym,
                    cumfreq: ((s[k].cumfreq - s[k + 1].cumfreq + 1) / 2) as u16,
                }
            } else {
                s[k]
            },
    )
}

/// One inner pass of the reordering: records `i` and `j..e` are compared
/// and swapped whenever record `j` carries a strictly larger frequency.
pub open spec fn spec_sort_pass(s: Seq<ModelSym>, i: int, j: int, e: int) -> Seq<ModelSym>
    decreases e - j,
{
    if j >= e {
        s
    } else {
        let s2 = if s[i].cumfreq < s[j].cumfreq {
            s.update(i, s[j]).update(j, s[i])
        } else {
            s
        };
        spec_sort_pass(s2, i, j + 1, e)
    }
}

/// The in-place selection sort by frequency descending, pass by pass,
/// swapping only on strict inequality.
pub open spec fn spec_sort(s: Seq<ModelSym>, i: int, e: int) -> Seq<ModelSym>
    decreases e - i,
{
    if i >= e - 1 {
        s
    } else {
        spec_sort(spec_sort_pass(s, i, i + 1, e), i + 1, e)
    }
}

/// Cumulative frequencies rebuilt as suffix sums of individual ones; the
/// sentinel is untouched.
#[verifier::opaque]
pub open spec fn spec_rebuild(s: Seq<ModelSym>, e: int) -> Seq<ModelSym> {
    Seq::new(
        s.len(),
        |k: int|
            if 0 <= k < e {
                ModelSym { sym: s[k].sym, cumfreq: csum(s, k, e) as u16 }
            } else {
                s[k]
            },
    )
}

/// The record list after one rescale, in either mode: halve-and-bump
/// while the countdown is still running, else the full rebuild with the
/// reorder by individual frequency.
#[verifier::opaque]
pub open spec fn spec_update_syms(s: Seq<ModelSym>, e: int, shift_left: int) -> Seq<ModelSym> {
    if shift_left - 1 > 0 {
        spec_halve(s, e)
    } else {
        spec_rebuild(spec_sort(spec_indiv(s, e), 0, e), e)
    }
}

/// The rescale countdown after one rescale: decremented, or reset to 50
/// once it runs out.
pub open spec fn spec_update_shift(shift_left: int) -> int {
    if shift_left - 1 > 0 {
        shift_left - 1
    } else {
        50
    }
}

/// The record list after a decode bump: 8 added to the cumulative
/// frequency of every record ahead of and including the decoded one.
#[verifier::opaque]
pub open spec fn spec_bump(s: Seq<ModelSym>, idx: int) -> Seq<ModelSym> {
    Seq::new(
        s.len(),
        |k: int|
            if 0 <= k < idx {
                ModelSym { sym: s[k].sym, cumfreq: (s[k].cumfreq + 8) as u16 }
            } else {
                s[k]
            },
    )
}

/// An adaptive frequency model.
pub struct Model {
    /// Countdown that selects the rescale mode; reset to 50 on a full rebuild.
    pub shift_left: i32,
    /// Number of coded symbols; `syms` holds one extra sentinel record.
    pub entries: usize,
    /// Symbol records, cumulative frequencies strictly decreasing to the
    /// trailing sentinel.
    pub syms: Vec<ModelSym>,
}

impl Model {
    /// Structural invariant: record count, sentinel, strictly decreasing
    /// cumulative frequencies (stated with the gap they imply), and the
    /// rescale countdown in its resting range.
    pub open spec fn wf(self) -> bool {
        &&& self.syms@.len() == self.entries + 1
        &&& self.entries <= 64
        &&& self.syms@[self.entries as int].cumfreq == 0
        &&& forall|i: int, j: int|
            0 <= i < j <= self.entries ==> self.syms@[i].cumfreq >= self.syms@[j].cumfreq + (j - i)
        &&& 1 <= self.shift_left <= 50
    }

    /// The total frequency: the cumulative frequency at the head.
    pub open spec fn total(self) -> int {
        self.syms@[0].cumfreq as int
    }

    /// Every coded symbol identifier is below `bound`.
    pub open spec fn syms_below(self, bound: int) -> bool {
        forall|k: int| 0 <= k < self.entries ==> (self.syms@[k].sym as int) < bound
    }

    /// Every coded symbol identifier of `self` already occurs in `other`.
    pub open spec fn syms_from(self, other: Model) -> bool {
        forall|k: int|
            #![trigger self.syms@[k]]
            0 <= k < self.entries ==> exists|m: int|
                #![trigger other.syms@[m]]
                0 <= m < other.entries && self.syms@[k].sym == other.syms@[m].sym
    }

    /// Create an adaptive frequency model for the symbol range
    /// `[start, start + len)`: record `i` holds symbol `start + i` with
    /// cumulative frequency `len - i`, including the sentinel at `len`.
    pub fn new(start: u16, len: usize) -> (r: Model)
        requires
            len <= 64,
            start + len <= 65535,
        ensures
            r.wf(),
            r.entries == len,
            r.shift_left == 4,
            r.total() == len,
            forall|i: int|
                0 <= i <= len ==> r.syms@[i] == (ModelSym {
                    sym: (start + i) as u16,
                    cumfreq: (len - i) as u16,
                }),
            r.syms_below(start + len),
    {
        let mut syms: Vec<ModelSym> = Vec::with_capacity(len + 1);
        let mut i: usize = 0;
        while i <= len
            invariant
                i <= len + 1,
                len <= 64,
                start + len <= 65535,
                syms@.len() == i,
                forall|k: int|
                    0 <= k < i ==> syms@[k] == (ModelSym {
                        sym: (start + k) as u16,
                        cumfreq: (len - k) as u16,
                    }),
            decreases len + 1 - i,
        {
            syms.push(ModelSym { sym: start + (i as u16), cumfreq: (len - i) as u16 });
            i = i + 1;
        }
        Model { shift_left: 4, entries: len, syms }
    }

    /// Rescale the model once the total frequency has grown past its cap.
    ///
    /// While the countdown has not run out, every cumulative frequency is
    /// halved and bumped just above its successor where the halving broke
    /// strict monotonicity. When the countdown runs out, the cumulative
    /// frequencies are converted to individual ones (incremented and
    /// halved), the records are reordered by individual frequency
    /// descending, and the cumulative frequencies are rebuilt.
    ///
    /// In either mode the total frequency never grows, and it at least
    /// roughly halves (up to one unit per record).
    #[verifier::rlimit(60)]
    pub fn update(&mut self)
        requires
            old(self).wf(),
            old(self).total() <= 3808,
        ensures
            final(self).wf(),
            final(self).entries == old(self).entries,
            final(self).total() <= old(self).total(),
            2 * final(self).total() <= old(self).total() + 2 * old(self).entries,
            final(self).syms_from(*old(self)),
            final(self).shift_left == spec_update_shift(old(self).shift_left as int),
            final(self).syms@ == spec_update_syms(
                old(self).syms@,
                old(self).entries as int,
                old(self).shift_left as int,
            ),
            final(self).syms@[old(self).entries as int] == old(self).syms@[old(
                self,
            ).entries as int],
            sym_ids(final(self).syms@, old(self).entries as int).to_multiset() == sym_ids(
                old(self).syms@,
                old(self).entries as int,
            ).to_multiset(),
    {
        let ghost orig = self.syms@;
        let ghost e = self.entries as int;
        self.shift_left = self.shift_left - 1;
        if self.shift_left > 0 {
            // Halve cumulative frequencies, restoring strict monotonicity.
            let mut i: usize = self.entries;
            while i > 0
                invariant
                    self.entries == e,
                    self.syms@.len() == e + 1,
                    self.shift_left == old(self).shift_left - 1,
                    1 <= self.shift_left <= 50,
                    i <= e,
                    e <= 64,
                    orig.len() == e + 1,
                    orig[e].cumfreq == 0,
                    orig[0].cumfreq <= 3808,
                    forall|a: int, b: int|
                        0 <= a < b <= e ==> orig[a].cumfreq >= orig[b].cumfreq + (b - a),
                    forall|k: int| #![trigger self.syms@[k]] 0 <= k < i ==> self.syms@[k] == orig[k],
                    self.syms@[e] == orig[e],
                    forall|k: int|
                        #![trigger self.syms@[k]]
                        i <= k < e ==> self.syms@[k].sym == orig[k].sym
                            && self.syms@[k].cumfreq <= orig[k].cumfreq
                            && self.syms@[k].cumfreq <= orig[k].cumfreq / 2 + (e - k)
                            && self.syms@[k].cumfreq == spec_halved_cum(orig, e, k),
                    forall|a: int, b: int|
                        i <= a < b <= e ==> self.syms@[a].cumfreq >= self.syms@[b].cumfreq + (b
                            - a),
                decreases i,
            {
                i = i - 1;
                let cur = self.syms[i];
                let next_freq = self.syms[i + 1].cumfreq;
                proof {
                    assert(cur == orig[i as int]);
                    if 0 < i {
                        assert(orig[0].cumfreq >= orig[i as int].cumfreq + i);
                    }
                    if i as int + 1 < e {
                        assert(self.syms@[i as int + 1].cumfreq <= orig[i as int + 1].cumfreq / 2
                            + (e - i - 1));
                        assert(orig[i as int + 1].cumfreq <= orig[i as int].cumfreq);
                    }
                }
                let halved = cur.cumfreq / 2;
                let nv: u16 = if halved <= next_freq {
                    next_freq + 1
                } else {
                    halved
                };
                self.syms[i] = ModelSym { sym: cur.sym, cumfreq: nv };
                proof {
                    assert(self.syms@[i as int].cumfreq == nv);
                    assert(nv <= orig[i as int].cumfreq);
                    assert(nv <= orig[i as int].cumfreq / 2 + (e - i));
                    assert(nv >= next_freq + 1);
                    if i as int + 1 == e {
                        assert(next_freq == spec_halved_cum(orig, e, i as int + 1));
                    }
                    assert(nv == spec_halved_cum(orig, e, i as int));
                }
            }
            proof {
                assert forall|k: int| #![trigger self.syms@[k]] 0 <= k < e implies exists|m: int|
                    #![trigger orig[m]]
                    0 <= m < e && self.syms@[k].sym == orig[m].sym by {
                    assert(self.syms@[k].sym == orig[k].sym);
                }
                assert(self.syms@ == spec_halve(orig, e)) by {
                    reveal(spec_halve);
                    assert(self.syms@ =~= spec_halve(orig, e));
                }
                assert(self.syms@ == spec_update_syms(orig, e, old(self).shift_left as int)) by {
                    reveal(spec_update_syms);
                }
                assert(sym_ids(self.syms@, e) =~= sym_ids(orig, e));
            }
        } else {
            self.shift_left = 50;
            // Convert cumulative frequencies to individual frequencies,
            // preventing zeros and halving.
            let mut i: usize = 0;
            while i < self.entries
                invariant
                    self.entries == e,
                    self.syms@.len() == e + 1,
                    self.shift_left == 50,
                    0 <= i <= e,
                    e <= 64,
                    orig.len() == e + 1,
                    orig[e].cumfreq == 0,
                    orig[0].cumfreq <= 3808,
                    forall|a: int, b: int|
                        0 <= a < b <= e ==> orig[a].cumfreq >= orig[b].cumfreq + (b - a),
                    forall|k: int| #![trigger self.syms@[k]] i <= k <= e ==> self.syms@[k] == orig[k],
                    forall|k: int|
                        #![trigger self.syms@[k]]
                        0 <= k < i ==> self.syms@[k].sym == orig[k].sym
                            && self.syms@[k].cumfreq == (orig[k].cumfreq - orig[k
                            + 1].cumfreq + 1) / 2
                            && self.syms@[k].cumfreq >= 1,
                decreases e - i,
            {
                let cur = self.syms[i];
                let next_freq = self.syms[i + 1].cumfreq;
                proof {
                    assert(cur == orig[i as int]);
                    assert(orig[i as int].cumfreq >= orig[i as int + 1].cumfreq + 1);
                    if 0 < i {
                        assert(orig[0].cumfreq >= orig[i as int].cumfreq + i);
                    }
                }
                let nv: u16 = (cur.cumfreq - next_freq + 1) / 2;
                self.syms[i] = ModelSym { sym: cur.sym, cumfreq: nv };
                proof {
                    assert(self.syms@[i as int].cumfreq == nv);
                    assert(nv as int == (orig[i as int].cumfreq - orig[i as int + 1].cumfreq + 1)
                        / 2);
                    assert(nv >= 1);
                }
                i = i + 1;
            }
            proof {
                assert forall|k: int| #![trigger self.syms@[k]] 0 <= k < e implies 2 * (
                self.syms@[k].cumfreq as int) <= orig[k].cumfreq - orig[k + 1].cumfreq + 1 by {
                    assert(self.syms@[k].cumfreq == (orig[k].cumfreq - orig[k + 1].cumfreq + 1)
                        / 2);
                }
                lemma_csum_halved(orig, self.syms@, 0, e);
                assert(2 * csum(self.syms@, 0, e) <= orig[0].cumfreq + e);
                assert(self.syms@ == spec_indiv(orig, e)) by {
                    reveal(spec_indiv);
                    assert(self.syms@ =~= spec_indiv(orig, e));
                }
                assert(sym_ids(self.syms@, e) =~= sym_ids(orig, e));
            }
            let ghost total_indiv = csum(self.syms@, 0, e);
            let ghost indiv_syms = self.syms@;
            // Reorder the records by individual frequency, descending.
            if self.entries > 1 {
                let mut i: usize = 0;
                while i < self.entries - 1
                    invariant
                        self.entries == e,
                        self.syms@.len() == e + 1,
                        self.shift_left == 50,
                        e >= 2,
                        0 <= i <= e - 1,
                        self.syms@[e] == orig[e],
                        csum(self.syms@, 0, e) == total_indiv,
                        indiv_syms.len() == e + 1,
                        spec_sort(self.syms@, i as int, e) == spec_sort(indiv_syms, 0, e),
                        sym_ids(self.syms@, e).to_multiset() == sym_ids(
                            indiv_syms,
                            e,
                        ).to_multiset(),
                        forall|k: int| #![trigger self.syms@[k]] 0 <= k < e ==> self.syms@[k].cumfreq >= 1,
                        forall|k: int|
                            #![trigger self.syms@[k]]
                            0 <= k < e ==> exists|m: int|
                                #![trigger orig[m]]
                                0 <= m < e && self.syms@[k].sym == orig[m].sym,
                    decreases e - 1 - i,
                {
                    let ghost pass_start = self.syms@;
                    let mut j: usize = i + 1;
                    while j < self.entries
                        invariant
                            self.entries == e,
                            self.syms@.len() == e + 1,
                            self.shift_left == 50,
                            0 <= i < j <= e,
                            e >= 2,
                            i < e - 1,
                            self.syms@[e] == orig[e],
                            csum(self.syms@, 0, e) == total_indiv,
                            indiv_syms.len() == e + 1,
                            pass_start.len() == e + 1,
                            spec_sort_pass(self.syms@, i as int, j as int, e) == spec_sort_pass(
                                pass_start,
                                i as int,
                                i as int + 1,
                                e,
                            ),
                            spec_sort(pass_start, i as int, e) == spec_sort(indiv_syms, 0, e),
                            sym_ids(self.syms@, e).to_multiset() == sym_ids(
                                indiv_syms,
                                e,
                            ).to_multiset(),
                            forall|k: int| #![trigger self.syms@[k]] 0 <= k < e ==> self.syms@[k].cumfreq >= 1,
                            forall|k: int|
                                #![trigger self.syms@[k]]
                                0 <= k < e ==> exists|m: int|
                                    #![trigger orig[m]]
                                    0 <= m < e && self.syms@[k].sym == orig[m].sym,
                        decreases e - j,
                    {
                        let ghost before = self.syms@;
                        if self.syms[i].cumfreq < self.syms[j].cumfreq {
                            let a = self.syms[i];
                            let b = self.syms[j];
                            self.syms[i] = b;
                            self.syms[j] = a;
                            proof {
                                lemma_csum_update(before, 0, e, i as int, b);
                                lemma_csum_update(
                                    before.update(i as int, b),
                                    0,
                                    e,
                                    j as int,
                                    a,
                                );
                                assert(sym_ids(self.syms@, e) =~= sym_ids(before, e).update(
                                    i as int,
                                    before[j as int].sym,
                                ).update(j as int, before[i as int].sym));
                                assert(sym_ids(before, e)[i as int] == before[i as int].sym);
                                assert(sym_ids(before, e)[j as int] == before[j as int].sym);
                                lemma_swap_multiset(sym_ids(before, e), i as int, j as int);
                            }
                        }
                        proof {
                            assert(spec_sort_pass(before, i as int, j as int, e)
                                == spec_sort_pass(self.syms@, i as int, j as int + 1, e));
                        }
                        j = j + 1;
                    }
                    proof {
                        assert(spec_sort_pass(self.syms@, i as int, e, e) == self.syms@);
                        assert(spec_sort(pass_start, i as int, e) == spec_sort(
                            self.syms@,
                            i as int + 1,
                            e,
                        ));
                    }
                    i = i + 1;
                }
            }
            proof {
                if e <= 1 {
                    assert(spec_sort(indiv_syms, 0, e) == indiv_syms);
                }
                assert(self.syms@ == spec_sort(indiv_syms, 0, e));
                assert(sym_ids(self.syms@, e).to_multiset() == sym_ids(
                    indiv_syms,
                    e,
                ).to_multiset());
            }
            let ghost sorted = self.syms@;
            proof {
                lemma_csum_nonneg(sorted, 0, e);
            }
            // Rebuild cumulative frequencies from the sentinel upward.
            let mut i: usize = self.entries;
            while i > 0
                invariant
                    self.entries == e,
                    self.syms@.len() == e + 1,
                    self.shift_left == 50,
                    i <= e,
                    e <= 64,
                    sorted.len() == e + 1,
                    sorted[e].cumfreq == 0,
                    csum(sorted, 0, e) == total_indiv,
                    0 <= total_indiv <= 1952,
                    forall|k: int| #![trigger sorted[k]] 0 <= k < e ==> sorted[k].cumfreq >= 1,
                    forall|k: int| #![trigger self.syms@[k]] 0 <= k < i ==> self.syms@[k] == sorted[k],
                    self.syms@[e] == sorted[e],
                    forall|k: int|
                        #![trigger self.syms@[k]]
                        i <= k < e ==> self.syms@[k].sym == sorted[k].sym
                            && self.syms@[k].cumfreq == csum(sorted, k, e),
                decreases i,
            {
                i = i - 1;
                let cur = self.syms[i];
                let next_freq = self.syms[i + 1].cumfreq;
                proof {
                    assert(cur == sorted[i as int]);
                    assert(csum(sorted, i as int, e) == sorted[i as int].cumfreq + csum(
                        sorted,
                        i as int + 1,
                        e,
                    ));
                    assert(next_freq == csum(sorted, i as int + 1, e));
                    lemma_csum_split(sorted, 0, i as int, e);
                    lemma_csum_nonneg(sorted, 0, i as int);
                    lemma_csum_nonneg(sorted, i as int, e);
                }
                self.syms[i] = ModelSym { sym: cur.sym, cumfreq: cur.cumfreq + next_freq };
                proof {
                    assert(self.syms@[i as int].cumfreq == csum(sorted, i as int, e));
                }
            }
            proof {
                assert forall|a: int, b: int| 0 <= a < b <= e implies self.syms@[a].cumfreq
                    >= self.syms@[b].cumfreq + (b - a) by {
                    lemma_csum_split(sorted, a, b, e);
                    lemma_csum_min_gap(sorted, a, b);
                }
                if e > 0 {
                    assert(self.syms@[0].cumfreq == total_indiv);
                }
                assert forall|k: int| #![trigger self.syms@[k]] 0 <= k < e implies exists|m: int|
                    #![trigger orig[m]]
                    0 <= m < e && self.syms@[k].sym == orig[m].sym by {
                    assert(self.syms@[k].sym == sorted[k].sym);
                }
                assert(self.syms@ == spec_rebuild(sorted, e)) by {
                    reveal(spec_rebuild);
                    assert(self.syms@ =~= spec_rebuild(sorted, e));
                }
                assert(self.syms@ == spec_update_syms(orig, e, old(self).shift_left as int)) by {
                    reveal(spec_update_syms);
                }
                assert(sym_ids(self.syms@, e) =~= sym_ids(sorted, e));
            }
        }
    }
}

/// `csum` over two sequences that agree on `[lo, hi)` is equal.
proof fn lemma_csum_agree(s1: Seq<ModelSym>, s2: Seq<ModelSym>, lo: int, hi: int)
    requires
        forall|k: int| lo <= k < hi ==> s1[k] == s2[k],
    ensures
        csum(s1, lo, hi) == csum(s2, lo, hi),
    decreases hi - lo,
{
    if lo < hi {
        lemma_csum_agree(s1, s2, lo + 1, hi);
    }
}

/// Updating one record inside the range shifts `csum` by the difference of
/// the cumulative frequencies.
proof fn lemma_csum_update(s: Seq<ModelSym>, lo: int, hi: int, k: int, v: ModelSym)
    requires
        0 <= lo <= k < hi <= s.len(),
    ensures
        csum(s.update(k, v), lo, hi) == csum(s, lo, hi) - s[k].cumfreq + v.cumfreq,
    decreases k - lo,
{
    if lo < k {
        lemma_csum_update(s, lo + 1, hi, k, v);
    } else {
        lemma_csum_agree(s.update(k, v), s, lo + 1, hi);
    }
}

/// `csum` splits at any midpoint.
proof fn lemma_csum_split(s: Seq<ModelSym>, lo: int, mid: int, hi: int)
    requires
        lo <= mid <= hi,
    ensures
        csum(s, lo, hi) == csum(s, lo, mid) + csum(s, mid, hi),
    decreases mid - lo,
{
    if lo < mid {
        lemma_csum_split(s, lo + 1, mid, hi);
    }
}

/// `csum` of unsigned records is non-negative.
proof fn lemma_csum_nonneg(s: Seq<ModelSym>, lo: int, hi: int)
    ensures
        csum(s, lo, hi) >= 0,
    decreases hi - lo,
{
    if lo < hi {
        lemma_csum_nonneg(s, lo + 1, hi);
    }
}

/// Over records that are all at least 1, `csum` is at least the length of
/// the range.
proof fn lemma_csum_min_gap(s: Seq<ModelSym>, lo: int, hi: int)
    requires
        forall|k: int| lo <= k < hi ==> s[k].cumfreq >= 1,
    ensures
        csum(s, lo, hi) >= hi - lo,
    decreases hi - lo,
{
    if lo < hi {
        lemma_csum_min_gap(s, lo + 1, hi);
    }
}

/// If each record of `cur` is at most half of the corresponding
/// (incremented) gap of `orig`, the sum telescopes: twice the sum of `cur`
/// is bounded by the outer gap of `orig` plus the length of the range.
proof fn lemma_csum_halved(orig: Seq<ModelSym>, cur: Seq<ModelSym>, lo: int, hi: int)
    requires
        lo <= hi,
        forall|k: int|
            #![trigger cur[k]]
            lo <= k < hi ==> 2 * (cur[k].cumfreq as int) <= orig[k].cumfreq - orig[k + 1].cumfreq
                + 1,
    ensures
        2 * csum(cur, lo, hi) <= orig[lo].cumfreq - orig[hi].cumfreq + (hi - lo),
    decreases hi - lo,
{
    if lo < hi {
        lemma_csum_halved(orig, cur, lo + 1, hi);
        assert(csum(cur, lo, hi) == cur[lo].cumfreq + csum(cur, lo + 1, hi));
        assert(2 * (cur[lo].cumfreq as int) <= orig[lo].cumfreq - orig[lo + 1].cumfreq + 1);
    }
}

/// Swapping two positions of a sequence leaves its multiset unchanged.
proof fn lemma_swap_multiset(s: Seq<u16>, i: int, j: int)
    requires
        0 <= i < j < s.len(),
    ensures
        s.update(i, s[j]).update(j, s[i]).to_multiset() == s.to_multiset(),
{
    broadcast use vstd::seq_lib::to_multiset_update;
    broadcast use vstd::seq_lib::group_to_multiset_ensures;
    broadcast use vstd::multiset::group_multiset_axioms;
    broadcast use vstd::multiset::group_multiset_properties;

    let s1 = s.update(i, s[j]);
    assert(s1[j] == s[j]);
    assert(s.contains(s[i]));
    assert(s1.contains(s1[j]));
    assert(s1.update(j, s[i]).to_multiset() =~= s.to_multiset());
}

} // verus!
