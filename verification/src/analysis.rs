//! The analysis pass's bookkeeping. Decoding, loudness and waveforms work
//! on floating point and stay with the caller.
use vstd::prelude::*;
use vstd::arithmetic::div_mod::{lemma_div_is_ordered, lemma_div_multiples_vanish, lemma_fundamental_div_mod};

verus! {

/// Bumped whenever any analysis output changes; tracks below it are
/// reprocessed in the background.
pub const ANALYZER_VERSION: u32 = 1;

/// Default waveform resolution.
pub const DEFAULT_WAVEFORM_BINS: usize = 512;

/// What one analysis pass did. Zero analyzed and zero failed means the
/// queue is empty.
#[derive(Debug, Default, Clone, PartialEq, Eq)]
pub struct RunReport {
    pub analyzed: usize,
    pub failed: usize,
}

/// Frames of a waveform slot when the track is expected to hold
/// `estimated` frames and the waveform has `bins` bins (at least one): the
/// length spread over the bins, at least one frame; 1024 when the length is
/// unknown or zero.
pub open spec fn frames_per_slot_of(bins: nat, estimated: Option<u64>) -> nat {
    let n = if bins >= 1 {
        bins
    } else {
        1
    };
    match estimated {
        Some(f) => if f > 0 {
            if (f as nat) / n >= 1 {
                (f as nat) / n
            } else {
                1
            }
        } else {
            1024
        },
        None => 1024,
    }
}

/// How many frames one waveform slot gathers.
pub fn frames_per_slot(bins: usize, estimated_frames: Option<u64>) -> (f: u64)
    ensures
        f == frames_per_slot_of(bins as nat, estimated_frames),
        f >= 1,
{
    let n: u64 = if bins >= 1 {
        bins as u64
    } else {
        1
    };
    match estimated_frames {
        Some(f) => if f > 0 {
            let q = f / n;
            if q >= 1 {
                q
            } else {
                1
            }
        } else {
            1024
        },
        None => 1024,
    }
}

/// The first slot of bin `b` when `slots` slots fold into `bins` bins.
pub open spec fn bin_start(b: nat, slots: nat, bins: nat) -> nat {
    b * slots / bins
}

/// One past the last slot of bin `b`: where the next bin starts, but at
/// least one slot in and never past the end.
pub open spec fn bin_end(b: nat, slots: nat, bins: nat) -> nat {
    let e = (b + 1) * slots / bins;
    let at_least = if e >= bin_start(b, slots, bins) + 1 {
        e
    } else {
        bin_start(b, slots, bins) + 1
    };
    if at_least <= slots {
        at_least
    } else {
        slots
    }
}

/// The slots bin `b` of `bins` gathers out of `slots`. Every bin gets at
/// least one slot; the first starts at the first slot and the last ends at
/// the last; with at least as many slots as bins, each bin ends where the
/// next begins.
pub fn bin_range(b: usize, slots: usize, bins: usize) -> (r: (usize, usize))
    requires
        1 <= bins,
        b < bins,
        1 <= slots,
        (b + 1) * slots <= usize::MAX,
    ensures
        r.0 == bin_start(b as nat, slots as nat, bins as nat),
        r.1 == bin_end(b as nat, slots as nat, bins as nat),
        r.0 < r.1 <= slots,
        b == 0 ==> r.0 == 0,
        b + 1 == bins ==> r.1 == slots,
        slots >= bins ==> r.1 == (b + 1) * slots / (bins as int),
{
    assert(b * slots <= (b + 1) * slots) by (nonlinear_arith);
    let start = b * slots / bins;
    let e = (b + 1) * slots / bins;
    let ghost q = (b * slots) / (bins as int);
    proof {
        lemma_fundamental_div_mod((b * slots) as int, bins as int);
        assert(b * slots < bins * slots) by (nonlinear_arith)
            requires
                b < bins,
                slots >= 1,
        ;
        assert(bins * q <= b * slots);
        assert(q < slots) by (nonlinear_arith)
            requires
                bins * q < bins * slots,
                bins >= 1,
        ;
        assert((b + 1) * slots <= bins * slots) by (nonlinear_arith)
            requires
                b + 1 <= bins,
        ;
        lemma_div_is_ordered(((b + 1) * slots) as int, (bins * slots) as int, bins as int);
        lemma_div_multiples_vanish(slots as int, bins as int);
        if slots >= bins {
            assert((b + 1) * slots == b * slots + slots) by (nonlinear_arith);
            assert(bins * (q + 1) == bins * q + bins) by (nonlinear_arith);
            lemma_div_is_ordered(bins * (q + 1), ((b + 1) * slots) as int, bins as int);
            lemma_div_multiples_vanish(q + 1, bins as int);
        }
        if b + 1 == bins {
            assert((b + 1) * slots == bins * slots);
        }
    }
    let at_least = if e >= start + 1 {
        e
    } else {
        start + 1
    };
    let end = if at_least <= slots {
        at_least
    } else {
        slots
    };
    (start, end)
}

} // verus!
