use vstd::prelude::*;

verus! {

/// A second-order IIR filter: the feed-forward coefficients `b0`, `b1`, `b2`, the feedback
/// coefficients `a1`, `a2`, and the filter's memory: the last two inputs (`x1` the most recent,
/// then `x2`) and the last two outputs (`y1`, then `y2`).
#[derive(Clone, Copy)]
pub struct Biquad<T> {
    pub b0: T,
    pub b1: T,
    pub b2: T,
    pub a1: T,
    pub a2: T,
    pub x1: T,
    pub x2: T,
    pub y1: T,
    pub y2: T,
}

impl<T: Copy> Biquad<T> {
    /// The filter after it has read input `x` and produced output `y`: the coefficients stay,
    /// the input and output memories each move one place.
    pub open spec fn advanced(self, x: T, y: T) -> Biquad<T> {
        Biquad {
            b0: self.b0,
            b1: self.b1,
            b2: self.b2,
            a1: self.a1,
            a2: self.a2,
            x1: x,
            x2: self.x1,
            y1: y,
            y2: self.y1,
        }
    }

    /// Whether two filters have the same coefficients (their memories may differ).
    pub open spec fn same_coefficients(self, other: Biquad<T>) -> bool {
        &&& self.b0 == other.b0
        &&& self.b1 == other.b1
        &&& self.b2 == other.b2
        &&& self.a1 == other.a1
        &&& self.a2 == other.a2
    }

    /// A filter whose coefficients and memory all hold `T`'s default value (zero for numbers).
    pub fn new() -> (bq: Biquad<T>)
        where T: Default,
        ensures
            call_ensures(T::default, (), bq.b0),
            bq.b1 == bq.b0,
            bq.b2 == bq.b0,
            bq.a1 == bq.b0,
            bq.a2 == bq.b0,
            bq.x1 == bq.b0,
            bq.x2 == bq.b0,
            bq.y1 == bq.b0,
            bq.y2 == bq.b0,
    {
        let zero = T::default();
        Biquad { b0: zero, b1: zero, b2: zero, a1: zero, a2: zero, x1: zero, x2: zero, y1: zero, y2: zero }
    }

    /// Moves the filter's memory on by one sample: `x` was read and `y` produced.
    pub fn advance(&mut self, x: T, y: T)
        ensures
            *final(self) == old(self).advanced(x, y),
    {
        self.x2 = self.x1;
        self.x1 = x;
        self.y2 = self.y1;
        self.y1 = y;
    }
}

/// The filter after it has taken the first `n` samples of `xs` and produced the first `n`
/// samples of `ys`, starting from `start`.
pub open spec fn state_after<T: Copy>(start: Biquad<T>, xs: Seq<T>, ys: Seq<T>, n: int) -> Biquad<T>
    decreases n,
{
    if n <= 0 {
        start
    } else {
        state_after(start, xs, ys, n - 1).advanced(xs[n - 1], ys[n - 1])
    }
}

/// `step` may be called on any filter and any sample.
pub open spec fn step_total<T, F: Fn(&Biquad<T>, T) -> T>(step: F) -> bool {
    forall|bq: Biquad<T>, x: T| call_requires(step, (&bq, x))
}

/// `step` gives one result for each filter and sample.
pub open spec fn step_deterministic<T, F: Fn(&Biquad<T>, T) -> T>(step: F) -> bool {
    forall|bq: Biquad<T>, x: T, y1: T, y2: T|
        call_ensures(step, (&bq, x), y1) && call_ensures(step, (&bq, x), y2) ==> y1 == y2
}

/// Running the filter `start` over the input `xs` gives the output `ys` and leaves the filter
/// as `end`: output sample `i` is what `step` returns for input sample `i` and the filter as it
/// stands after the samples before it, and `end` is the filter after all of them.
pub open spec fn filtered<T: Copy, F: Fn(&Biquad<T>, T) -> T>(
    step: F,
    start: Biquad<T>,
    xs: Seq<T>,
    ys: Seq<T>,
    end: Biquad<T>,
) -> bool {
    &&& ys.len() == xs.len()
    &&& forall|i: int|
        0 <= i < xs.len() ==> call_ensures(step, (&state_after(start, xs, ys, i), xs[i]), #[trigger] ys[i])
    &&& end == state_after(start, xs, ys, xs.len() as int)
}

/// A buffer that held `xs` and is being filtered in place from its front: the first `i` samples
/// of `buf` are outputs, the rest still the inputs, and the filter stands at `bq`.
pub open spec fn processed<T: Copy, F: Fn(&Biquad<T>, T) -> T>(
    step: F,
    start: Biquad<T>,
    xs: Seq<T>,
    buf: Seq<T>,
    bq: Biquad<T>,
    i: int,
) -> bool {
    &&& 0 <= i <= xs.len()
    &&& buf.len() == xs.len()
    &&& forall|j: int| i <= j < xs.len() ==> #[trigger] buf[j] == xs[j]
    &&& forall|j: int|
        0 <= j < i ==> call_ensures(step, (&state_after(start, xs, buf, j), xs[j]), #[trigger] buf[j])
    &&& bq == state_after(start, xs, buf, i)
}

/// The filter's state after `n` samples depends on the outputs before `n` only.
pub proof fn lemma_state_after_prefix<T: Copy>(start: Biquad<T>, xs: Seq<T>, ys1: Seq<T>, ys2: Seq<T>, n: int)
    requires
        forall|k: int| 0 <= k < n ==> ys1[k] == ys2[k],
    ensures
        state_after(start, xs, ys1, n) == state_after(start, xs, ys2, n),
    decreases n,
{
    if n > 0 {
        lemma_state_after_prefix(start, xs, ys1, ys2, n - 1);
    }
}

/// The filter's state after `n` samples depends on the inputs before `n` only.
pub proof fn lemma_state_after_input_prefix<T: Copy>(start: Biquad<T>, xs1: Seq<T>, xs2: Seq<T>, ys: Seq<T>, n: int)
    requires
        forall|k: int| 0 <= k < n ==> xs1[k] == xs2[k],
    ensures
        state_after(start, xs1, ys, n) == state_after(start, xs2, ys, n),
    decreases n,
{
    if n > 0 {
        lemma_state_after_input_prefix(start, xs1, xs2, ys, n - 1);
    }
}

/// Nothing has been processed yet.
pub proof fn lemma_processed_start<T: Copy, F: Fn(&Biquad<T>, T) -> T>(step: F, start: Biquad<T>, xs: Seq<T>)
    ensures
        processed(step, start, xs, xs, start, 0),
{
}

/// One more sample processed: input `i` was replaced by `y`, the result of `step` on it, and
/// the filter moved on.
pub proof fn lemma_processed_step<T: Copy, F: Fn(&Biquad<T>, T) -> T>(
    step: F,
    start: Biquad<T>,
    xs: Seq<T>,
    buf: Seq<T>,
    bq: Biquad<T>,
    i: int,
    y: T,
)
    requires
        processed(step, start, xs, buf, bq, i),
        i < xs.len(),
        call_ensures(step, (&bq, buf[i]), y),
    ensures
        processed(step, start, xs, buf.update(i, y), bq.advanced(buf[i], y), i + 1),
{
    let nbuf = buf.update(i, y);
    assert forall|j: int| 0 <= j <= i implies state_after(start, xs, nbuf, j) == state_after(start, xs, buf, j) by {
        lemma_state_after_prefix(start, xs, nbuf, buf, j);
    }
    assert(state_after(start, xs, nbuf, i + 1) == bq.advanced(buf[i], y));
    assert forall|j: int| 0 <= j < i + 1 implies call_ensures(step, (&state_after(start, xs, nbuf, j), xs[j]), #[trigger] nbuf[j]) by {
        if j < i {
            assert(nbuf[j] == buf[j]);
        }
    }
}

/// Every sample processed: the buffer holds the filter's output.
pub proof fn lemma_processed_done<T: Copy, F: Fn(&Biquad<T>, T) -> T>(
    step: F,
    start: Biquad<T>,
    xs: Seq<T>,
    buf: Seq<T>,
    bq: Biquad<T>,
)
    requires
        processed(step, start, xs, buf, bq, xs.len() as int),
    ensures
        filtered(step, start, xs, buf, bq),
{
}

/// Filtering changes the filter's memory only: its coefficients stay as they were.
pub proof fn lemma_state_after_coefficients<T: Copy>(start: Biquad<T>, xs: Seq<T>, ys: Seq<T>, n: int)
    ensures
        state_after(start, xs, ys, n).same_coefficients(start),
    decreases n,
{
    if n > 0 {
        lemma_state_after_coefficients(start, xs, ys, n - 1);
    }
}

/// Law: a filter run leaves the coefficients as they were.
pub proof fn lemma_filtered_keeps_coefficients<T: Copy, F: Fn(&Biquad<T>, T) -> T>(
    step: F,
    start: Biquad<T>,
    xs: Seq<T>,
    ys: Seq<T>,
    end: Biquad<T>,
)
    requires
        filtered(step, start, xs, ys, end),
    ensures
        end.same_coefficients(start),
{
    lemma_state_after_coefficients(start, xs, ys, xs.len() as int);
}

/// Law: after a run the filter remembers the run's last two inputs and outputs; where the
/// buffer is shorter than two samples, the places not filled keep what the filter remembered
/// before, moved on by the samples there were, and an empty buffer leaves the filter as it was.
pub proof fn lemma_filtered_memory<T: Copy, F: Fn(&Biquad<T>, T) -> T>(
    step: F,
    start: Biquad<T>,
    xs: Seq<T>,
    ys: Seq<T>,
    end: Biquad<T>,
)
    requires
        filtered(step, start, xs, ys, end),
    ensures
        end.same_coefficients(start),
        xs.len() == 0 ==> end == start,
        xs.len() == 1 ==> end == start.advanced(xs[0], ys[0]),
        xs.len() >= 2 ==> {
            &&& end.x1 == xs[xs.len() - 1]
            &&& end.x2 == xs[xs.len() - 2]
            &&& end.y1 == ys[ys.len() - 1]
            &&& end.y2 == ys[ys.len() - 2]
        },
{
    lemma_filtered_keeps_coefficients(step, start, xs, ys, end);
    let n = xs.len() as int;
    if n >= 2 {
        assert(state_after(start, xs, ys, n) == state_after(start, xs, ys, n - 1).advanced(xs[n - 1], ys[n - 1]));
        assert(state_after(start, xs, ys, n - 1) == state_after(start, xs, ys, n - 2).advanced(xs[n - 2], ys[n - 2]));
    } else if n == 1 {
        assert(state_after(start, xs, ys, 0) == start);
    }
}

/// Running over `xs1 + xs2` passes, after `xs1`, through the state that a run over `xs1`
/// alone ends in, and goes on from there as a run over `xs2` would.
pub proof fn lemma_state_after_concat<T: Copy>(
    start: Biquad<T>,
    xs1: Seq<T>,
    ys1: Seq<T>,
    xs2: Seq<T>,
    ys2: Seq<T>,
    k: int,
)
    requires
        xs1.len() == ys1.len(),
        xs2.len() == ys2.len(),
        0 <= k <= xs2.len(),
    ensures
        state_after(start, xs1 + xs2, ys1 + ys2, xs1.len() + k)
            == state_after(state_after(start, xs1, ys1, xs1.len() as int), xs2, ys2, k),
    decreases k,
{
    let n1 = xs1.len() as int;
    if k == 0 {
        lemma_state_after_prefix(start, xs1 + xs2, ys1 + ys2, ys1, n1);
        lemma_state_after_input_prefix(start, xs1 + xs2, xs1, ys1, n1);
    } else {
        lemma_state_after_concat(start, xs1, ys1, xs2, ys2, k - 1);
        assert((xs1 + xs2)[n1 + k - 1] == xs2[k - 1]);
        assert((ys1 + ys2)[n1 + k - 1] == ys2[k - 1]);
    }
}

/// Before the join, a run over `xs1 + xs2` is a run over `xs1`.
pub proof fn lemma_state_after_concat_front<T: Copy>(
    start: Biquad<T>,
    xs1: Seq<T>,
    ys1: Seq<T>,
    xs2: Seq<T>,
    ys2: Seq<T>,
    j: int,
)
    requires
        xs1.len() == ys1.len(),
        0 <= j <= xs1.len(),
    ensures
        state_after(start, xs1 + xs2, ys1 + ys2, j) == state_after(start, xs1, ys1, j),
{
    lemma_state_after_prefix(start, xs1 + xs2, ys1 + ys2, ys1, j);
    lemma_state_after_input_prefix(start, xs1 + xs2, xs1, ys1, j);
}

/// Law (block processing): running the filter over one buffer and then, from where it ended,
/// over a second buffer gives the same outputs and final filter as one run over the two
/// buffers joined.
pub proof fn lemma_filtered_concat<T: Copy, F: Fn(&Biquad<T>, T) -> T>(
    step: F,
    start: Biquad<T>,
    xs1: Seq<T>,
    ys1: Seq<T>,
    mid: Biquad<T>,
    xs2: Seq<T>,
    ys2: Seq<T>,
    end: Biquad<T>,
)
    requires
        filtered(step, start, xs1, ys1, mid),
        filtered(step, mid, xs2, ys2, end),
    ensures
        filtered(step, start, xs1 + xs2, ys1 + ys2, end),
{
    let xs = xs1 + xs2;
    let ys = ys1 + ys2;
    let n1 = xs1.len() as int;
    assert forall|i: int| 0 <= i < xs.len() implies call_ensures(step, (&state_after(start, xs, ys, i), xs[i]), #[trigger] ys[i]) by {
        if i < n1 {
            lemma_state_after_concat_front(start, xs1, ys1, xs2, ys2, i);
            assert(ys[i] == ys1[i]);
            assert(xs[i] == xs1[i]);
        } else {
            lemma_state_after_concat(start, xs1, ys1, xs2, ys2, i - n1);
            assert(ys[i] == ys2[i - n1]);
            assert(xs[i] == xs2[i - n1]);
        }
    }
    lemma_state_after_concat(start, xs1, ys1, xs2, ys2, xs2.len() as int);
}

/// Law (block processing, the other way): a run over two buffers joined splits, at the join,
/// into a run over the first buffer and a run over the second from where the first ended.
pub proof fn lemma_filtered_split<T: Copy, F: Fn(&Biquad<T>, T) -> T>(
    step: F,
    start: Biquad<T>,
    xs1: Seq<T>,
    xs2: Seq<T>,
    ys: Seq<T>,
    end: Biquad<T>,
)
    requires
        filtered(step, start, xs1 + xs2, ys, end),
    ensures
        filtered(step, start, xs1, ys.take(xs1.len() as int), state_after(start, xs1, ys.take(xs1.len() as int), xs1.len() as int)),
        filtered(
            step,
            state_after(start, xs1, ys.take(xs1.len() as int), xs1.len() as int),
            xs2,
            ys.skip(xs1.len() as int),
            end,
        ),
{
    let n1 = xs1.len() as int;
    let ys1 = ys.take(n1);
    let ys2 = ys.skip(n1);
    let mid = state_after(start, xs1, ys1, n1);
    assert(ys1 + ys2 =~= ys);
    assert forall|i: int| 0 <= i < xs1.len() implies call_ensures(step, (&state_after(start, xs1, ys1, i), xs1[i]), #[trigger] ys1[i]) by {
        lemma_state_after_concat_front(start, xs1, ys1, xs2, ys2, i);
        assert(ys[i] == ys1[i]);
        assert((xs1 + xs2)[i] == xs1[i]);
    }
    assert forall|k: int| 0 <= k < xs2.len() implies call_ensures(step, (&state_after(mid, xs2, ys2, k), xs2[k]), #[trigger] ys2[k]) by {
        lemma_state_after_concat(start, xs1, ys1, xs2, ys2, k);
        assert(ys[n1 + k] == ys2[k]);
        assert((xs1 + xs2)[n1 + k] == xs2[k]);
    }
    lemma_state_after_concat(start, xs1, ys1, xs2, ys2, xs2.len() as int);
}

/// Law (one result): where `step` gives one result for each filter and sample, a run from a
/// given filter over a given buffer has one outcome, so every loop form computes the same
/// outputs and the same final filter.
pub proof fn lemma_filtered_deterministic<T: Copy, F: Fn(&Biquad<T>, T) -> T>(
    step: F,
    start: Biquad<T>,
    xs: Seq<T>,
    ys1: Seq<T>,
    end1: Biquad<T>,
    ys2: Seq<T>,
    end2: Biquad<T>,
)
    requires
        step_deterministic(step),
        filtered(step, start, xs, ys1, end1),
        filtered(step, start, xs, ys2, end2),
    ensures
        ys1 == ys2,
        end1 == end2,
{
    lemma_outputs_agree(step, start, xs, ys1, ys2, xs.len() as int);
    assert(ys1 =~= ys2);
}

/// The outputs of two runs agree up to `n`.
proof fn lemma_outputs_agree<T: Copy, F: Fn(&Biquad<T>, T) -> T>(
    step: F,
    start: Biquad<T>,
    xs: Seq<T>,
    ys1: Seq<T>,
    ys2: Seq<T>,
    n: int,
)
    requires
        step_deterministic(step),
        filtered(step, start, xs, ys1, state_after(start, xs, ys1, xs.len() as int)),
        filtered(step, start, xs, ys2, state_after(start, xs, ys2, xs.len() as int)),
        0 <= n <= xs.len(),
    ensures
        forall|k: int| 0 <= k < n ==> ys1[k] == ys2[k],
    decreases n,
{
    if n > 0 {
        lemma_outputs_agree(step, start, xs, ys1, ys2, n - 1);
        lemma_state_after_prefix(start, xs, ys1, ys2, n - 1);
        assert(call_ensures(step, (&state_after(start, xs, ys1, n - 1), xs[n - 1]), ys1[n - 1]));
        assert(call_ensures(step, (&state_after(start, xs, ys2, n - 1), xs[n - 1]), ys2[n - 1]));
    }
}

} // verus!
