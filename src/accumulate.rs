//! How samples are split across workers and how partial sums are handed over.
use vstd::prelude::*;

verus! {

/// Samples each worker traces: the requested count divided evenly, at least one.
pub open spec fn spec_samples_per_thread(samples: nat, threads: nat) -> nat {
    if samples / threads >= 1 {
        samples / threads
    } else {
        1
    }
}

/// Number of samples each of `threads` workers traces when `samples` are requested.
pub fn samples_per_thread(samples: u32, threads: u32) -> (r: u32)
    requires
        threads >= 1,
    ensures
        r == spec_samples_per_thread(samples as nat, threads as nat),
        r >= 1,
{
    let per = samples / threads;
    if per >= 1 {
        per
    } else {
        1
    }
}

/// The divisor for the final image: samples per worker times the number of workers.
/// Where `samples` is not a multiple of `threads` the remainder is dropped, so the
/// total lies within one round of workers below the request.
pub fn total_samples(samples: u32, threads: u32) -> (r: u32)
    requires
        threads >= 1,
    ensures
        r == spec_samples_per_thread(samples as nat, threads as nat) * threads,
        samples >= threads ==> r <= samples && samples < r + threads,
        samples < threads ==> r == threads,
{
    let per = samples_per_thread(samples, threads);
    proof {
        let s = samples as int;
        let t = threads as int;
        vstd::arithmetic::div_mod::lemma_fundamental_div_mod(s, t);
        if s >= t {
            assert(s / t >= 1) by {
                vstd::arithmetic::div_mod::lemma_div_is_ordered(t, s, t);
                vstd::arithmetic::div_mod::lemma_div_by_self(t);
            }
            assert(per as int * t + s % t == s);
            assert(0 <= s % t < t) by {
                vstd::arithmetic::div_mod::lemma_mod_bound(s, t);
            }
        } else {
            vstd::arithmetic::div_mod::lemma_basic_div(s, t);
            assert(per == 1);
        }
    }
    per * threads
}

/// Position in the accumulation buffer of channel `c` of the pixel at column `x`, row
/// `y`, in an image `width` pixels wide: three channels per pixel, rows in order.
pub fn channel_index(x: usize, y: usize, width: usize, c: usize) -> (r: usize)
    requires
        x < width,
        c < 3,
        (y * width + x) * 3 + c <= usize::MAX,
    ensures
        r == (y * width + x) * 3 + c,
{
    proof {
        assert(0 <= y * width) by (nonlinear_arith);
    }
    (y * width + x) * 3 + c
}

/// Whether a worker hands its partial sum over right after sample `s`: worker `id`
/// does so on the samples whose remainder modulo `post_every` is its own number, so
/// that workers take the shared buffer in turn.
pub open spec fn hands_over_after(s: nat, id: nat, post_every: nat) -> bool {
    s % post_every == id
}

/// Bookkeeping after a worker has traced sample `s`, with `pending` samples traced
/// before it and not yet handed over. Returns the samples still pending and the number
/// handed over now (zero when the worker keeps them).
pub fn record_sample(pending: u32, s: u32, id: u32, post_every: u32) -> (r: (u32, u32))
    requires
        post_every >= 1,
        pending < u32::MAX,
    ensures
        hands_over_after(s as nat, id as nat, post_every as nat) ==> r == (0u32, (pending + 1) as u32),
        !hands_over_after(s as nat, id as nat, post_every as nat) ==> r == ((pending + 1) as u32, 0u32),
{
    if s % post_every == id {
        (0, pending + 1)
    } else {
        (pending + 1, 0)
    }
}

/// Samples handed over by a worker, and samples still pending, once it has traced
/// samples `0 .. n` and applied `record_sample` after each.
pub open spec fn hand_over_run(n: nat, id: nat, post_every: nat) -> (nat, nat)
    decreases n,
{
    if n == 0 {
        (0, 0)
    } else {
        let prev = hand_over_run((n - 1) as nat, id, post_every);
        if hands_over_after((n - 1) as nat, id, post_every) {
            (prev.0 + prev.1 + 1, 0)
        } else {
            (prev.0, prev.1 + 1)
        }
    }
}

/// No sample is lost or counted twice: after `n` samples, what a worker has handed
/// over plus what it still holds (and hands over at the end) is exactly `n`.
pub proof fn lemma_samples_conserved(n: nat, id: nat, post_every: nat)
    requires
        post_every >= 1,
    ensures
        hand_over_run(n, id, post_every).0 + hand_over_run(n, id, post_every).1 == n,
    decreases n,
{
    if n > 0 {
        lemma_samples_conserved((n - 1) as nat, id, post_every);
    }
}

/// Samples handed over, during the run and at its end, by workers `0 .. workers`
/// that each trace `per_thread` samples.
pub open spec fn samples_gathered(workers: nat, per_thread: nat, post_every: nat) -> nat
    decreases workers,
{
    if workers == 0 {
        0
    } else {
        let run = hand_over_run(per_thread, (workers - 1) as nat, post_every);
        samples_gathered((workers - 1) as nat, per_thread, post_every) + run.0 + run.1
    }
}

/// The shared buffer ends up holding exactly the number of samples that the image is
/// divided by: every worker's samples, each counted once.
pub proof fn lemma_gathered_is_divisor(samples: nat, threads: nat, post_every: nat)
    requires
        threads >= 1,
        post_every >= 1,
    ensures
        samples_gathered(threads, spec_samples_per_thread(samples, threads), post_every)
            == spec_samples_per_thread(samples, threads) * threads,
{
    lemma_gathered_count(threads, spec_samples_per_thread(samples, threads), post_every);
}

proof fn lemma_gathered_count(workers: nat, per_thread: nat, post_every: nat)
    requires
        post_every >= 1,
    ensures
        samples_gathered(workers, per_thread, post_every) == per_thread * workers,
    decreases workers,
{
    if workers > 0 {
        lemma_gathered_count((workers - 1) as nat, per_thread, post_every);
        lemma_samples_conserved(per_thread, (workers - 1) as nat, post_every);
        let run = hand_over_run(per_thread, (workers - 1) as nat, post_every);
        assert(samples_gathered(workers, per_thread, post_every) == samples_gathered(
            (workers - 1) as nat,
            per_thread,
            post_every,
        ) + run.0 + run.1);
        assert(per_thread * workers == per_thread * (workers - 1) + per_thread) by (nonlinear_arith)
            requires
                workers > 0,
        ;
    } else {
        assert(per_thread * workers == 0) by (nonlinear_arith)
            requires
                workers == 0,
        ;
    }
}

} // verus!
