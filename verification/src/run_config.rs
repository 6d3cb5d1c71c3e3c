//! Settings of a run, and what follows from them: partitions, pinning, logging and progress.

use vstd::prelude::*;

verus! {

/// Where events go, and how often.
pub struct Logger {
    pub filename: String,
    /// Emit one record every this many gates; never zero.
    pub log_every: usize,
}

impl Logger {
    /// Logs to `filename`, one record every `log_every` gates, and every gate for zero.
    pub fn new(filename: String, log_every: usize) -> (l: Self)
        ensures
            l.filename == filename,
            l.log_every == (if log_every == 0 {
                1
            } else {
                log_every
            }),
    {
        Logger {
            filename,
            log_every: if log_every == 0 {
                1
            } else {
                log_every
            },
        }
    }

    /// Whether gate `gate_idx` is recorded.
    pub fn due(&self, gate_idx: usize) -> (r: bool)
        requires
            self.log_every > 0,
        ensures
            r == (gate_idx as int % self.log_every as int == 0),
    {
        gate_idx % self.log_every == 0
    }
}

/// How many partitions a pool of `threads` workers serves: one each, and at least one.
pub fn partitions(threads: usize) -> (n: usize)
    ensures
        n == (if threads == 0 {
            1
        } else {
            threads
        }),
{
    if threads == 0 {
        1
    } else {
        threads
    }
}

/// How many merge batches a pool of `threads` workers has: the least power of two that is no
/// fewer.
pub fn merge_batches(threads: usize) -> (n: usize)
    requires
        2 * threads <= usize::MAX,
    ensures
        n >= threads,
        n >= 1,
        crate::store::is_power(n as int),
        n > 1 ==> n < 2 * threads,
{
    let mut n: usize = 1;
    while n < threads
        invariant
            n >= 1,
            2 * threads <= usize::MAX,
            crate::store::is_power(n as int),
            n > 1 ==> n < 2 * threads,
        decreases 2 * threads - n,
    {
        n = 2 * n;
    }
    n
}

/// The processor that worker `index` should occupy, of those on offer: they are dealt out in
/// turn.
pub fn cpu_for_worker(index: usize, cpus: &[usize]) -> (r: Option<usize>)
    ensures
        r == (if cpus@.len() == 0 {
            None
        } else {
            Some(cpus@[index as int % cpus@.len() as int])
        }),
{
    let n: usize = cpus.len();
    if n == 0 {
        return None;
    }
    Some(cpus[index % n])
}

/// Milliseconds between draws of a progress bar.
pub const MIN_DRAW_INTERVAL_MS: u64 = 100;

/// Gates that a progress bar has yet to show.
pub struct ProgressBank {
    every: usize,
    last_draw_ms: u64,
    pending: usize,
    first: bool,
}

impl ProgressBank {
    /// Gates between ticks.
    pub closed spec fn stride(&self) -> nat {
        self.every as nat
    }

    /// When the bar was last drawn.
    pub closed spec fn drawn_at(&self) -> u64 {
        self.last_draw_ms
    }

    /// Gates not yet shown.
    pub closed spec fn banked(&self) -> nat {
        self.pending as nat
    }

    /// Nothing has been drawn yet.
    pub closed spec fn fresh(&self) -> bool {
        self.first
    }

    /// A bank for a bar that ticks every `every` gates, and every gate for zero.
    pub fn new(every: usize) -> (b: Self)
        ensures
            b.stride() == (if every == 0 {
                1
            } else {
                every as nat
            }),
            b.drawn_at() == 0,
            b.banked() == 0,
            b.fresh(),
    {
        ProgressBank {
            every: if every == 0 {
                1
            } else {
                every
            },
            last_draw_ms: 0,
            pending: 0,
            first: true,
        }
    }

    /// Gates between ticks, never zero.
    pub fn every(&self) -> (n: usize)
        ensures
            n == self.stride(),
    {
        self.every
    }

    /// A draw is due at `now_ms`: the first always is, and later ones once enough time has
    /// passed.
    pub open spec fn due(&self, now_ms: u64) -> bool {
        self.fresh() || now_ms - self.drawn_at() >= MIN_DRAW_INTERVAL_MS
    }

    /// Banks `advance` gates at `now_ms`, and returns how many to draw if a draw is due and
    /// there are any.
    pub fn bank(&mut self, advance: usize, now_ms: u64) -> (r: Option<usize>)
        requires
            old(self).banked() + advance <= usize::MAX,
        ensures
            final(self).stride() == old(self).stride(),
            !final(self).fresh(),
            final(self).banked() + (match r {
                Some(n) => n as nat,
                None => 0,
            }) == old(self).banked() + advance,
            if old(self).due(now_ms) {
                &&& final(self).drawn_at() == now_ms
                &&& final(self).banked() == 0
                &&& match r {
                    Some(n) => n == old(self).banked() + advance && n > 0,
                    None => old(self).banked() + advance == 0,
                }
            } else {
                &&& r is None
                &&& final(self).drawn_at() == old(self).drawn_at()
                &&& final(self).banked() == old(self).banked() + advance
            },
    {
        self.pending = self.pending + advance;
        let due: bool = self.first || (now_ms >= self.last_draw_ms && now_ms - self.last_draw_ms
            >= MIN_DRAW_INTERVAL_MS);
        self.first = false;
        if !due {
            return None;
        }
        self.last_draw_ms = now_ms;
        let drawn: usize = self.pending;
        self.pending = 0;
        if drawn > 0 {
            Some(drawn)
        } else {
            None
        }
    }

    /// Takes what is banked, to be shown before the bar closes.
    pub fn drain(&mut self) -> (n: usize)
        ensures
            n == old(self).banked(),
            final(self).banked() == 0,
            final(self).stride() == old(self).stride(),
            final(self).drawn_at() == old(self).drawn_at(),
            final(self).fresh() == old(self).fresh(),
    {
        let n: usize = self.pending;
        self.pending = 0;
        n
    }
}

/// The first draw is always due, and after one the next is due once the interval has passed and
/// not before.
pub proof fn law_draws_are_spaced(b: ProgressBank, now_ms: u64)
    ensures
        b.fresh() ==> b.due(now_ms),
        !b.fresh() && now_ms < b.drawn_at() + MIN_DRAW_INTERVAL_MS ==> !b.due(now_ms),
        !b.fresh() && now_ms >= b.drawn_at() + MIN_DRAW_INTERVAL_MS ==> b.due(now_ms),
{
}

} // verus!
