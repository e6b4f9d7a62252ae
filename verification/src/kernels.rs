use vstd::prelude::*;
use crate::biquad::{Biquad, filtered, processed, step_total, lemma_processed_start, lemma_processed_step, lemma_processed_done};
use crate::bench::BUFFER_LEN;

verus! {

/// Runs `bq` over `buf` in place with an index loop: each sample is replaced by the filter's
/// output for it, and `bq` keeps the memory of the last inputs and outputs for the next buffer.
pub fn iir_c_style_for_loop<T: Copy, F: Fn(&Biquad<T>, T) -> T>(buf: &mut [T], bq: &mut Biquad<T>, step: &F)
    requires
        step_total(*step),
    ensures
        filtered(*step, *old(bq), old(buf)@, final(buf)@, *final(bq)),
{
    let ghost start = *bq;
    let ghost xs = buf@;
    proof { lemma_processed_start(*step, start, xs); }
    let n = buf.len();
    for i in 0..n
        invariant
            n == xs.len(),
            step_total(*step),
            processed(*step, start, xs, buf@, *bq, i as int),
    {
        let x = buf[i];
        let y = step(&*bq, x);
        proof { lemma_processed_step(*step, start, xs, buf@, *bq, i as int, y); }
        buf[i] = y;
        bq.advance(x, y);
    }
    proof { lemma_processed_done(*step, start, xs, buf@, *bq); }
}

/// Runs `bq` over `buf` in place with an index loop written without bounds checks in mind:
/// the same result as [`iir_c_style_for_loop`].
pub fn iir_unchecked_c_style_for_loop<T: Copy, F: Fn(&Biquad<T>, T) -> T>(buf: &mut [T], bq: &mut Biquad<T>, step: &F)
    requires
        step_total(*step),
    ensures
        filtered(*step, *old(bq), old(buf)@, final(buf)@, *final(bq)),
{
    let ghost start = *bq;
    let ghost xs = buf@;
    proof { lemma_processed_start(*step, start, xs); }
    let n = buf.len();
    let mut i: usize = 0;
    while i < n
        invariant
            n == xs.len(),
            step_total(*step),
            processed(*step, start, xs, buf@, *bq, i as int),
        decreases n - i,
    {
        let x = buf[i];
        let y = step(&*bq, x);
        proof { lemma_processed_step(*step, start, xs, buf@, *bq, i as int, y); }
        buf[i] = y;
        bq.advance(x, y);
        i = i + 1;
    }
    proof { lemma_processed_done(*step, start, xs, buf@, *bq); }
}

/// Runs `bq` over `buf` in place, front to back, for a buffer of exactly [`BUFFER_LEN`]
/// samples (any other length is a caller's error).
pub fn iir_intoiterator_enforced_len<T: Copy, F: Fn(&Biquad<T>, T) -> T>(buf: &mut [T], bq: &mut Biquad<T>, step: &F)
    requires
        step_total(*step),
        old(buf)@.len() == BUFFER_LEN,
    ensures
        filtered(*step, *old(bq), old(buf)@, final(buf)@, *final(bq)),
{
    filter_forward(buf, bq, step);
}

/// Runs `bq` over a buffer of [`BUFFER_LEN`] samples held in an array, with an index loop.
pub fn iir_array_c_style_for_loop<T: Copy, F: Fn(&Biquad<T>, T) -> T>(
    buf: &mut [T; BUFFER_LEN],
    bq: &mut Biquad<T>,
    step: &F,
)
    requires
        step_total(*step),
    ensures
        filtered(*step, *old(bq), old(buf)@, final(buf)@, *final(bq)),
{
    let ghost start = *bq;
    let ghost xs = buf@;
    proof { lemma_processed_start(*step, start, xs); }
    let n = buf.len();
    for i in 0..n
        invariant
            n == xs.len(),
            step_total(*step),
            processed(*step, start, xs, buf@, *bq, i as int),
    {
        let x = buf[i];
        let y = step(&*bq, x);
        proof { lemma_processed_step(*step, start, xs, buf@, *bq, i as int, y); }
        buf[i] = y;
        bq.advance(x, y);
    }
    proof { lemma_processed_done(*step, start, xs, buf@, *bq); }
}

/// Walks `buf` front to back, replacing each sample by the filter's output for it.
fn filter_forward<T: Copy, F: Fn(&Biquad<T>, T) -> T>(buf: &mut [T], bq: &mut Biquad<T>, step: &F)
    requires
        step_total(*step),
    ensures
        filtered(*step, *old(bq), old(buf)@, final(buf)@, *final(bq)),
{
    let ghost start = *bq;
    let ghost xs = buf@;
    proof { lemma_processed_start(*step, start, xs); }
    let mut i: usize = 0;
    while i < buf.len()
        invariant
            step_total(*step),
            processed(*step, start, xs, buf@, *bq, i as int),
        decreases xs.len() - i,
    {
        let y = step(&*bq, buf[i]);
        let x = buf[i];
        proof { lemma_processed_step(*step, start, xs, buf@, *bq, i as int, y); }
        buf[i] = y;
        bq.advance(x, y);
        i = i + 1;
    }
    proof { lemma_processed_done(*step, start, xs, buf@, *bq); }
}

/// Runs `bq` over `buf` in place, front to back (one of the separately compiled copies of the
/// same loop that the benchmark times side by side).
pub fn iir_intoiterator_shared<T: Copy, F: Fn(&Biquad<T>, T) -> T>(buf: &mut [T], bq: &mut Biquad<T>, step: &F)
    requires
        step_total(*step),
    ensures
        filtered(*step, *old(bq), old(buf)@, final(buf)@, *final(bq)),
{
    filter_forward(buf, bq, step);
}

/// Runs `bq` over `buf` in place, front to back (one of the separately compiled copies of the
/// same loop that the benchmark times side by side).
pub fn iir_intoiterator_uniq_1<T: Copy, F: Fn(&Biquad<T>, T) -> T>(buf: &mut [T], bq: &mut Biquad<T>, step: &F)
    requires
        step_total(*step),
    ensures
        filtered(*step, *old(bq), old(buf)@, final(buf)@, *final(bq)),
{
    filter_forward(buf, bq, step);
}

/// Runs `bq` over `buf` in place, front to back (one of the separately compiled copies of the
/// same loop that the benchmark times side by side).
pub fn iir_intoiterator_uniq_2<T: Copy, F: Fn(&Biquad<T>, T) -> T>(buf: &mut [T], bq: &mut Biquad<T>, step: &F)
    requires
        step_total(*step),
    ensures
        filtered(*step, *old(bq), old(buf)@, final(buf)@, *final(bq)),
{
    filter_forward(buf, bq, step);
}

/// Runs `bq` over `buf` in place, front to back (one of the separately compiled copies of the
/// same loop that the benchmark times side by side).
pub fn iir_intoiterator_uniq_3<T: Copy, F: Fn(&Biquad<T>, T) -> T>(buf: &mut [T], bq: &mut Biquad<T>, step: &F)
    requires
        step_total(*step),
    ensures
        filtered(*step, *old(bq), old(buf)@, final(buf)@, *final(bq)),
{
    filter_forward(buf, bq, step);
}

/// Runs `bq` over `buf` in place, front to back (one of the separately compiled copies of the
/// same loop that the benchmark times side by side).
pub fn iir_intoiterator_uniq_4<T: Copy, F: Fn(&Biquad<T>, T) -> T>(buf: &mut [T], bq: &mut Biquad<T>, step: &F)
    requires
        step_total(*step),
    ensures
        filtered(*step, *old(bq), old(buf)@, final(buf)@, *final(bq)),
{
    filter_forward(buf, bq, step);
}

/// Runs `bq` over `buf` in place, front to back (one of the separately compiled copies of the
/// same loop that the benchmark times side by side).
pub fn iir_intoiterator_uniq_5<T: Copy, F: Fn(&Biquad<T>, T) -> T>(buf: &mut [T], bq: &mut Biquad<T>, step: &F)
    requires
        step_total(*step),
    ensures
        filtered(*step, *old(bq), old(buf)@, final(buf)@, *final(bq)),
{
    filter_forward(buf, bq, step);
}

/// Runs `bq` over `buf` in place, front to back (one of the separately compiled copies of the
/// same loop that the benchmark times side by side).
pub fn iir_intoiterator_uniq_6<T: Copy, F: Fn(&Biquad<T>, T) -> T>(buf: &mut [T], bq: &mut Biquad<T>, step: &F)
    requires
        step_total(*step),
    ensures
        filtered(*step, *old(bq), old(buf)@, final(buf)@, *final(bq)),
{
    filter_forward(buf, bq, step);
}

/// Runs `bq` over `buf` in place, front to back (one of the separately compiled copies of the
/// same loop that the benchmark times side by side).
pub fn iir_intoiterator_uniq_7<T: Copy, F: Fn(&Biquad<T>, T) -> T>(buf: &mut [T], bq: &mut Biquad<T>, step: &F)
    requires
        step_total(*step),
    ensures
        filtered(*step, *old(bq), old(buf)@, final(buf)@, *final(bq)),
{
    filter_forward(buf, bq, step);
}

/// Runs `bq` over `buf` in place, front to back (one of the separately compiled copies of the
/// same loop that the benchmark times side by side).
pub fn iir_intoiterator_uniq_8<T: Copy, F: Fn(&Biquad<T>, T) -> T>(buf: &mut [T], bq: &mut Biquad<T>, step: &F)
    requires
        step_total(*step),
    ensures
        filtered(*step, *old(bq), old(buf)@, final(buf)@, *final(bq)),
{
    filter_forward(buf, bq, step);
}

/// Runs `bq` over `buf` in place, front to back (one of the separately compiled copies of the
/// same loop that the benchmark times side by side).
pub fn iir_intoiterator_uniq_9<T: Copy, F: Fn(&Biquad<T>, T) -> T>(buf: &mut [T], bq: &mut Biquad<T>, step: &F)
    requires
        step_total(*step),
    ensures
        filtered(*step, *old(bq), old(buf)@, final(buf)@, *final(bq)),
{
    filter_forward(buf, bq, step);
}

} // verus!
