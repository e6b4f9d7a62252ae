use vstd::prelude::*;
use crate::biquad::{
    Biquad, filtered, step_total, step_deterministic, lemma_filtered_deterministic,
    lemma_filtered_keeps_coefficients,
};
use crate::kernels::{
    iir_array_c_style_for_loop, iir_c_style_for_loop, iir_intoiterator_enforced_len,
    iir_intoiterator_shared, iir_intoiterator_uniq_1, iir_intoiterator_uniq_2,
    iir_intoiterator_uniq_3, iir_intoiterator_uniq_4, iir_intoiterator_uniq_5,
    iir_intoiterator_uniq_6, iir_intoiterator_uniq_7, iir_intoiterator_uniq_8,
    iir_intoiterator_uniq_9, iir_unchecked_c_style_for_loop,
};

verus! {

/// Total number of samples that each benchmark pushes through every filter.
pub const SAMPLE_COUNT: u64 = 524288;

/// Number of filters applied one after another to each buffer.
pub const FILTER_COUNT: usize = 100;

/// Length of the buffers that the fixed-size kernels take.
pub const BUFFER_LEN: usize = 128;

/// Number of whole buffers of `buffer_len` samples that fit in [`SAMPLE_COUNT`] samples: the
/// number of rounds a benchmark runs.
pub fn buffer_count(buffer_len: usize) -> (count: u64)
    requires
        buffer_len > 0,
    ensures
        count == (SAMPLE_COUNT as int) / (buffer_len as int),
        count * buffer_len <= SAMPLE_COUNT < (count + 1) * buffer_len,
{
    let count = SAMPLE_COUNT / (buffer_len as u64);
    proof {
        let n = buffer_len as int;
        let s = SAMPLE_COUNT as int;
        assert(s == n * (s / n) + s % n && 0 <= s % n < n) by (nonlinear_arith)
            requires n > 0;
        assert((s / n) * n <= s < ((s / n) + 1) * n) by (nonlinear_arith)
            requires s == n * (s / n) + s % n, 0 <= s % n < n;
    }
    count
}

/// The loop forms over a buffer slice that the benchmark compares.
#[derive(Clone, Copy, PartialEq, Eq, Structural)]
pub enum Kernel {
    IntoIteratorShared,
    IntoIteratorUniq1,
    IntoIteratorUniq2,
    IntoIteratorUniq3,
    IntoIteratorUniq4,
    IntoIteratorUniq5,
    IntoIteratorUniq6,
    IntoIteratorUniq7,
    IntoIteratorUniq8,
    IntoIteratorUniq9,
    IntoIteratorEnforcedLen,
    CStyleForLoop,
    UncheckedCStyleForLoop,
}

impl Kernel {
    /// Whether the kernel takes a buffer of `len` samples: the fixed-length one takes
    /// [`BUFFER_LEN`] only, the others any length.
    pub open spec fn accepts_len(self, len: int) -> bool {
        self is IntoIteratorEnforcedLen ==> len == BUFFER_LEN
    }
}

/// Runs the filter `bq` over `buf` in place with the loop form `kernel`.
pub fn run_kernel<T: Copy, F: Fn(&Biquad<T>, T) -> T>(kernel: Kernel, buf: &mut [T], bq: &mut Biquad<T>, step: &F)
    requires
        step_total(*step),
        kernel.accepts_len(old(buf)@.len() as int),
    ensures
        filtered(*step, *old(bq), old(buf)@, final(buf)@, *final(bq)),
{
    match kernel {
        Kernel::IntoIteratorShared => iir_intoiterator_shared(buf, bq, step),
        Kernel::IntoIteratorUniq1 => iir_intoiterator_uniq_1(buf, bq, step),
        Kernel::IntoIteratorUniq2 => iir_intoiterator_uniq_2(buf, bq, step),
        Kernel::IntoIteratorUniq3 => iir_intoiterator_uniq_3(buf, bq, step),
        Kernel::IntoIteratorUniq4 => iir_intoiterator_uniq_4(buf, bq, step),
        Kernel::IntoIteratorUniq5 => iir_intoiterator_uniq_5(buf, bq, step),
        Kernel::IntoIteratorUniq6 => iir_intoiterator_uniq_6(buf, bq, step),
        Kernel::IntoIteratorUniq7 => iir_intoiterator_uniq_7(buf, bq, step),
        Kernel::IntoIteratorUniq8 => iir_intoiterator_uniq_8(buf, bq, step),
        Kernel::IntoIteratorUniq9 => iir_intoiterator_uniq_9(buf, bq, step),
        Kernel::IntoIteratorEnforcedLen => iir_intoiterator_enforced_len(buf, bq, step),
        Kernel::CStyleForLoop => iir_c_style_for_loop(buf, bq, step),
        Kernel::UncheckedCStyleForLoop => iir_unchecked_c_style_for_loop(buf, bq, step),
    }
}

/// The buffers of one pass through a bank of filters: `bufs[0]` goes into `bank0[0]`, which
/// turns it into `bufs[1]` and ends as `bank1[0]`; `bufs[1]` goes into `bank0[1]`, and so on.
pub open spec fn bank_trace<T: Copy, F: Fn(&Biquad<T>, T) -> T>(
    step: F,
    bank0: Seq<Biquad<T>>,
    bank1: Seq<Biquad<T>>,
    bufs: Seq<Seq<T>>,
) -> bool {
    &&& bank1.len() == bank0.len()
    &&& bufs.len() == bank0.len() + 1
    &&& forall|i: int|
        0 <= i < bank0.len() ==> #[trigger] filtered(step, bank0[i], bufs[i], bufs[i + 1], bank1[i])
}

/// One pass of a buffer through a bank of filters: the input `xs` goes through `bank0[0]`,
/// its output through `bank0[1]`, and so on; `ys` is what comes out of the last filter, and
/// `bank1` holds the filters as they stand afterwards.
pub open spec fn bank_filtered<T: Copy, F: Fn(&Biquad<T>, T) -> T>(
    step: F,
    bank0: Seq<Biquad<T>>,
    xs: Seq<T>,
    bank1: Seq<Biquad<T>>,
    ys: Seq<T>,
) -> bool {
    exists|bufs: Seq<Seq<T>>|
        #[trigger] bank_trace(step, bank0, bank1, bufs) && bufs[0] == xs && bufs[bufs.len() - 1] == ys
}

/// The banks and buffers between passes: pass `i` takes `banks[i]` and `bufs[i]` and leaves
/// `banks[i + 1]` and `bufs[i + 1]`.
pub open spec fn rounds_trace<T: Copy, F: Fn(&Biquad<T>, T) -> T>(
    step: F,
    banks: Seq<Seq<Biquad<T>>>,
    bufs: Seq<Seq<T>>,
) -> bool {
    &&& banks.len() == bufs.len()
    &&& forall|i: int|
        0 <= i < banks.len() - 1 ==> #[trigger] bank_filtered(step, banks[i], bufs[i], banks[i + 1], bufs[i + 1])
}

/// `rounds` passes of a buffer through a bank of filters, each pass taking the buffer and the
/// filters as the pass before left them.
pub open spec fn rounds_filtered<T: Copy, F: Fn(&Biquad<T>, T) -> T>(
    step: F,
    rounds: nat,
    bank0: Seq<Biquad<T>>,
    xs: Seq<T>,
    bank1: Seq<Biquad<T>>,
    ys: Seq<T>,
) -> bool {
    exists|banks: Seq<Seq<Biquad<T>>>, bufs: Seq<Seq<T>>|
        #[trigger] rounds_trace(step, banks, bufs) && banks.len() == rounds + 1 && banks[0] == bank0
            && bufs[0] == xs && banks[rounds as int] == bank1 && bufs[rounds as int] == ys
}

/// Passes `buf` through every filter of `bank` in order, each with the loop form `kernel`.
pub fn pass_through_bank<T: Copy, F: Fn(&Biquad<T>, T) -> T>(
    kernel: Kernel,
    buf: &mut [T],
    bank: &mut [Biquad<T>],
    step: &F,
)
    requires
        step_total(*step),
        kernel.accepts_len(old(buf)@.len() as int),
    ensures
        final(buf)@.len() == old(buf)@.len(),
        bank_filtered(*step, old(bank)@, old(buf)@, final(bank)@, final(buf)@),
{
    let ghost bank0 = bank@;
    let ghost xs = buf@;
    let ghost mut bufs: Seq<Seq<T>> = seq![xs];
    let n = bank.len();
    for f in 0..n
        invariant
            n == bank0.len(),
            bank@.len() == n,
            buf@.len() == xs.len(),
            step_total(*step),
            kernel.accepts_len(xs.len() as int),
            bufs.len() == f + 1,
            bufs[0] == xs,
            bufs[f as int] == buf@,
            forall|j: int| f <= j < n ==> #[trigger] bank@[j] == bank0[j],
            forall|i: int|
                0 <= i < f ==> #[trigger] filtered(*step, bank0[i], bufs[i], bufs[i + 1], bank@[i]),
    {
        let mut bq = bank[f];
        run_kernel(kernel, buf, &mut bq, step);
        bank[f] = bq;
        proof {
            bufs = bufs.push(buf@);
        }
    }
    assert(bank_trace(*step, bank0, bank@, bufs));
}

/// The benchmark's work: `rounds` passes of `buf` through every filter of `bank`, each filter
/// run with the loop form `kernel`, the buffer and filters carried from one pass to the next.
pub fn run_filter_bank<T: Copy, F: Fn(&Biquad<T>, T) -> T>(
    kernel: Kernel,
    buf: &mut [T],
    bank: &mut [Biquad<T>],
    rounds: u64,
    step: &F,
)
    requires
        step_total(*step),
        kernel.accepts_len(old(buf)@.len() as int),
    ensures
        rounds_filtered(*step, rounds as nat, old(bank)@, old(buf)@, final(bank)@, final(buf)@),
{
    let ghost bank0 = bank@;
    let ghost xs = buf@;
    let ghost mut banks: Seq<Seq<Biquad<T>>> = seq![bank0];
    let ghost mut bufs: Seq<Seq<T>> = seq![xs];
    for r in 0..rounds
        invariant
            buf@.len() == xs.len(),
            step_total(*step),
            kernel.accepts_len(xs.len() as int),
            banks.len() == r + 1,
            bufs.len() == r + 1,
            banks[0] == bank0,
            bufs[0] == xs,
            banks[r as int] == bank@,
            bufs[r as int] == buf@,
            rounds_trace(*step, banks, bufs),
    {
        pass_through_bank(kernel, buf, bank, step);
        proof {
            let old_banks = banks;
            let old_bufs = bufs;
            banks = banks.push(bank@);
            bufs = bufs.push(buf@);
            assert forall|i: int| 0 <= i < banks.len() - 1 implies #[trigger] bank_filtered(*step, banks[i], bufs[i], banks[i + 1], bufs[i + 1]) by {
                if i < r {
                    assert(bank_filtered(*step, old_banks[i], old_bufs[i], old_banks[i + 1], old_bufs[i + 1]));
                }
            }
        }
    }
    assert(rounds_trace(*step, banks, bufs));
}

/// Passes the array `buf` through every filter of `bank` in order with the array loop form.
fn pass_array_through_bank<T: Copy, F: Fn(&Biquad<T>, T) -> T>(
    buf: &mut [T; BUFFER_LEN],
    bank: &mut [Biquad<T>],
    step: &F,
)
    requires
        step_total(*step),
    ensures
        bank_filtered(*step, old(bank)@, old(buf)@, final(bank)@, final(buf)@),
{
    let ghost bank0 = bank@;
    let ghost xs = buf@;
    let ghost mut bufs: Seq<Seq<T>> = seq![xs];
    let n = bank.len();
    for f in 0..n
        invariant
            n == bank0.len(),
            bank@.len() == n,
            step_total(*step),
            bufs.len() == f + 1,
            bufs[0] == xs,
            bufs[f as int] == buf@,
            forall|j: int| f <= j < n ==> #[trigger] bank@[j] == bank0[j],
            forall|i: int|
                0 <= i < f ==> #[trigger] filtered(*step, bank0[i], bufs[i], bufs[i + 1], bank@[i]),
    {
        let mut bq = bank[f];
        iir_array_c_style_for_loop(buf, &mut bq, step);
        bank[f] = bq;
        proof {
            bufs = bufs.push(buf@);
        }
    }
    assert(bank_trace(*step, bank0, bank@, bufs));
}

/// The benchmark's work on a buffer held in an array of [`BUFFER_LEN`] samples: `rounds`
/// passes through every filter of `bank`, each run with the array loop form.
pub fn run_array_filter_bank<T: Copy, F: Fn(&Biquad<T>, T) -> T>(
    buf: &mut [T; BUFFER_LEN],
    bank: &mut [Biquad<T>],
    rounds: u64,
    step: &F,
)
    requires
        step_total(*step),
    ensures
        rounds_filtered(*step, rounds as nat, old(bank)@, old(buf)@, final(bank)@, final(buf)@),
{
    let ghost bank0 = bank@;
    let ghost xs = buf@;
    let ghost mut banks: Seq<Seq<Biquad<T>>> = seq![bank0];
    let ghost mut bufs: Seq<Seq<T>> = seq![xs];
    for r in 0..rounds
        invariant
            step_total(*step),
            banks.len() == r + 1,
            bufs.len() == r + 1,
            banks[0] == bank0,
            bufs[0] == xs,
            banks[r as int] == bank@,
            bufs[r as int] == buf@,
            rounds_trace(*step, banks, bufs),
    {
        pass_array_through_bank(buf, bank, step);
        proof {
            let old_banks = banks;
            let old_bufs = bufs;
            banks = banks.push(bank@);
            bufs = bufs.push(buf@);
            assert forall|i: int| 0 <= i < banks.len() - 1 implies #[trigger] bank_filtered(*step, banks[i], bufs[i], banks[i + 1], bufs[i + 1]) by {
                if i < r {
                    assert(bank_filtered(*step, old_banks[i], old_bufs[i], old_banks[i + 1], old_bufs[i + 1]));
                }
            }
        }
    }
    assert(rounds_trace(*step, banks, bufs));
}

/// Two traces of a pass through the same bank from the same buffer agree up to filter `k`.
proof fn lemma_bank_traces_agree<T: Copy, F: Fn(&Biquad<T>, T) -> T>(
    step: F,
    bank0: Seq<Biquad<T>>,
    bank1: Seq<Biquad<T>>,
    bufs1: Seq<Seq<T>>,
    bank2: Seq<Biquad<T>>,
    bufs2: Seq<Seq<T>>,
    k: int,
)
    requires
        step_deterministic(step),
        bank_trace(step, bank0, bank1, bufs1),
        bank_trace(step, bank0, bank2, bufs2),
        bufs1[0] == bufs2[0],
        0 <= k <= bank0.len(),
    ensures
        bufs1[k] == bufs2[k],
        forall|i: int| 0 <= i < k ==> bank1[i] == bank2[i],
    decreases k,
{
    if k > 0 {
        lemma_bank_traces_agree(step, bank0, bank1, bufs1, bank2, bufs2, k - 1);
        assert(filtered(step, bank0[k - 1], bufs1[k - 1], bufs1[(k - 1) + 1], bank1[k - 1]));
        assert(filtered(step, bank0[k - 1], bufs2[k - 1], bufs2[(k - 1) + 1], bank2[k - 1]));
        lemma_filtered_deterministic(step, bank0[k - 1], bufs1[k - 1], bufs1[k], bank1[k - 1], bufs2[k], bank2[k - 1]);
    }
}

/// Law (one result): where `step` gives one result for each filter and sample, a pass of a
/// buffer through a bank has one outcome, whichever loop form ran each filter.
pub proof fn lemma_bank_deterministic<T: Copy, F: Fn(&Biquad<T>, T) -> T>(
    step: F,
    bank0: Seq<Biquad<T>>,
    xs: Seq<T>,
    bank1: Seq<Biquad<T>>,
    ys1: Seq<T>,
    bank2: Seq<Biquad<T>>,
    ys2: Seq<T>,
)
    requires
        step_deterministic(step),
        bank_filtered(step, bank0, xs, bank1, ys1),
        bank_filtered(step, bank0, xs, bank2, ys2),
    ensures
        bank1 == bank2,
        ys1 == ys2,
{
    let bufs1 = choose|bufs: Seq<Seq<T>>|
        #[trigger] bank_trace(step, bank0, bank1, bufs) && bufs[0] == xs && bufs[bufs.len() - 1] == ys1;
    let bufs2 = choose|bufs: Seq<Seq<T>>|
        #[trigger] bank_trace(step, bank0, bank2, bufs) && bufs[0] == xs && bufs[bufs.len() - 1] == ys2;
    lemma_bank_traces_agree(step, bank0, bank1, bufs1, bank2, bufs2, bank0.len() as int);
    assert(bank1 =~= bank2);
}

/// Two traces of rounds from the same bank and buffer agree up to round `k`.
proof fn lemma_rounds_traces_agree<T: Copy, F: Fn(&Biquad<T>, T) -> T>(
    step: F,
    banks1: Seq<Seq<Biquad<T>>>,
    bufs1: Seq<Seq<T>>,
    banks2: Seq<Seq<Biquad<T>>>,
    bufs2: Seq<Seq<T>>,
    k: int,
)
    requires
        step_deterministic(step),
        rounds_trace(step, banks1, bufs1),
        rounds_trace(step, banks2, bufs2),
        0 <= k < banks1.len(),
        k < banks2.len(),
        banks1[0] == banks2[0],
        bufs1[0] == bufs2[0],
    ensures
        banks1[k] == banks2[k],
        bufs1[k] == bufs2[k],
    decreases k,
{
    if k > 0 {
        lemma_rounds_traces_agree(step, banks1, bufs1, banks2, bufs2, k - 1);
        assert(bank_filtered(step, banks1[k - 1], bufs1[k - 1], banks1[(k - 1) + 1], bufs1[(k - 1) + 1]));
        assert(bank_filtered(step, banks2[k - 1], bufs2[k - 1], banks2[(k - 1) + 1], bufs2[(k - 1) + 1]));
        lemma_bank_deterministic(step, banks1[k - 1], bufs1[k - 1], banks1[k], bufs1[k], banks2[k], bufs2[k]);
    }
}

/// Law (one result): where `step` gives one result for each filter and sample, a benchmark's
/// rounds end in one bank and one buffer, whichever loop form ran the filters.
pub proof fn lemma_rounds_deterministic<T: Copy, F: Fn(&Biquad<T>, T) -> T>(
    step: F,
    rounds: nat,
    bank0: Seq<Biquad<T>>,
    xs: Seq<T>,
    bank1: Seq<Biquad<T>>,
    ys1: Seq<T>,
    bank2: Seq<Biquad<T>>,
    ys2: Seq<T>,
)
    requires
        step_deterministic(step),
        rounds_filtered(step, rounds, bank0, xs, bank1, ys1),
        rounds_filtered(step, rounds, bank0, xs, bank2, ys2),
    ensures
        bank1 == bank2,
        ys1 == ys2,
{
    let (banks1, bufs1) = choose|banks: Seq<Seq<Biquad<T>>>, bufs: Seq<Seq<T>>|
        #[trigger] rounds_trace(step, banks, bufs) && banks.len() == rounds + 1 && banks[0] == bank0
            && bufs[0] == xs && banks[rounds as int] == bank1 && bufs[rounds as int] == ys1;
    let (banks2, bufs2) = choose|banks: Seq<Seq<Biquad<T>>>, bufs: Seq<Seq<T>>|
        #[trigger] rounds_trace(step, banks, bufs) && banks.len() == rounds + 1 && banks[0] == bank0
            && bufs[0] == xs && banks[rounds as int] == bank2 && bufs[rounds as int] == ys2;
    lemma_rounds_traces_agree(step, banks1, bufs1, banks2, bufs2, rounds as int);
}

/// A pass through a bank keeps the number of filters, the length of the buffer, and each
/// filter's coefficients.
proof fn lemma_bank_keeps_shape<T: Copy, F: Fn(&Biquad<T>, T) -> T>(
    step: F,
    bank0: Seq<Biquad<T>>,
    xs: Seq<T>,
    bank1: Seq<Biquad<T>>,
    ys: Seq<T>,
)
    requires
        bank_filtered(step, bank0, xs, bank1, ys),
    ensures
        bank1.len() == bank0.len(),
        ys.len() == xs.len(),
        forall|i: int| 0 <= i < bank0.len() ==> #[trigger] bank1[i].same_coefficients(bank0[i]),
{
    let bufs = choose|bufs: Seq<Seq<T>>|
        #[trigger] bank_trace(step, bank0, bank1, bufs) && bufs[0] == xs && bufs[bufs.len() - 1] == ys;
    assert forall|i: int| 0 <= i < bank0.len() implies #[trigger] bank1[i].same_coefficients(bank0[i]) by {
        assert(filtered(step, bank0[i], bufs[i], bufs[i + 1], bank1[i]));
        lemma_filtered_keeps_coefficients(step, bank0[i], bufs[i], bufs[i + 1], bank1[i]);
    }
    lemma_trace_lengths(step, bank0, bank1, bufs, bank0.len() as int);
}

/// Every buffer of a pass's trace up to `k` is as long as the first.
proof fn lemma_trace_lengths<T: Copy, F: Fn(&Biquad<T>, T) -> T>(
    step: F,
    bank0: Seq<Biquad<T>>,
    bank1: Seq<Biquad<T>>,
    bufs: Seq<Seq<T>>,
    k: int,
)
    requires
        bank_trace(step, bank0, bank1, bufs),
        0 <= k <= bank0.len(),
    ensures
        bufs[k].len() == bufs[0].len(),
    decreases k,
{
    if k > 0 {
        lemma_trace_lengths(step, bank0, bank1, bufs, k - 1);
        assert(filtered(step, bank0[k - 1], bufs[k - 1], bufs[(k - 1) + 1], bank1[k - 1]));
    }
}

/// Shape of the rounds' trace up to round `k`.
proof fn lemma_rounds_trace_shape<T: Copy, F: Fn(&Biquad<T>, T) -> T>(
    step: F,
    banks: Seq<Seq<Biquad<T>>>,
    bufs: Seq<Seq<T>>,
    k: int,
)
    requires
        rounds_trace(step, banks, bufs),
        0 <= k < banks.len(),
    ensures
        banks[k].len() == banks[0].len(),
        bufs[k].len() == bufs[0].len(),
        forall|i: int| 0 <= i < banks[0].len() ==> #[trigger] banks[k][i].same_coefficients(banks[0][i]),
    decreases k,
{
    if k > 0 {
        lemma_rounds_trace_shape(step, banks, bufs, k - 1);
        assert(bank_filtered(step, banks[k - 1], bufs[k - 1], banks[(k - 1) + 1], bufs[(k - 1) + 1]));
        lemma_bank_keeps_shape(step, banks[k - 1], bufs[k - 1], banks[k], bufs[k]);
        assert forall|i: int| 0 <= i < banks[0].len() implies #[trigger] banks[k][i].same_coefficients(banks[0][i]) by {
            assert(banks[k - 1][i].same_coefficients(banks[0][i]));
            assert(banks[k][i].same_coefficients(banks[k - 1][i]));
        }
    }
}

/// Law: a benchmark's rounds keep the number of filters, the buffer's length, and every
/// filter's coefficients; only the filters' memories and the buffer's samples change.
pub proof fn lemma_rounds_keep_shape<T: Copy, F: Fn(&Biquad<T>, T) -> T>(
    step: F,
    rounds: nat,
    bank0: Seq<Biquad<T>>,
    xs: Seq<T>,
    bank1: Seq<Biquad<T>>,
    ys: Seq<T>,
)
    requires
        rounds_filtered(step, rounds, bank0, xs, bank1, ys),
    ensures
        bank1.len() == bank0.len(),
        ys.len() == xs.len(),
        forall|i: int| 0 <= i < bank0.len() ==> #[trigger] bank1[i].same_coefficients(bank0[i]),
{
    let (banks, bufs) = choose|banks: Seq<Seq<Biquad<T>>>, bufs: Seq<Seq<T>>|
        #[trigger] rounds_trace(step, banks, bufs) && banks.len() == rounds + 1 && banks[0] == bank0
            && bufs[0] == xs && banks[rounds as int] == bank1 && bufs[rounds as int] == ys;
    lemma_rounds_trace_shape(step, banks, bufs, rounds as int);
}

} // verus!
