//! Waiting times between attempts to connect: they double from one second to half a minute, and
//! start over after a connection that was healthy.

use crate::crypto::random_below;
use vstd::prelude::*;

verus! {

/// The longest wait, in seconds.
pub const MAX_DELAY_SECS: u64 = 30;

/// A connection that lasted longer than this was healthy.
pub const HEALTHY_NS: u128 = 10_000_000_000;

/// Exclusive bound of the random part of a wait, in milliseconds.
pub const JITTER_MS: u64 = 500;

/// The delay that follows a delay.
pub open spec fn next_delay(delay: nat) -> nat {
    if 2 * delay <= MAX_DELAY_SECS {
        2 * delay
    } else {
        MAX_DELAY_SECS as nat
    }
}

/// The delay after `n` failures in a row.
pub open spec fn delay_after(n: nat) -> nat
    decreases n,
{
    if n == 0 {
        1
    } else {
        next_delay(delay_after((n - 1) as nat))
    }
}

/// The delay that applies after a connection ended.
pub open spec fn current_delay(delay: nat, lasted_ns: u128) -> nat {
    if lasted_ns > HEALTHY_NS {
        1
    } else {
        delay
    }
}

/// A connection ended after `lasted_ns` nanoseconds: the milliseconds `wait` to wait, `jitter_ms`
/// of them at random, and the delay that applies next.
pub open spec fn waits(
    delay: nat,
    lasted_ns: u128,
    jitter_ms: nat,
    wait: nat,
    next: nat,
) -> bool {
    &&& wait == current_delay(delay, lasted_ns) * 1000 + jitter_ms
    &&& next == next_delay(current_delay(delay, lasted_ns))
}

/// Attempts that fail in a row are 1, 2, 4, 8, 16 and then always 30 seconds apart, plus the random
/// part. A connection that lasted longer than ten seconds starts this over.
pub proof fn law_waits_between_attempts(
    lasted: Seq<u128>,
    jitter: Seq<nat>,
    wait: Seq<nat>,
    delays: Seq<nat>,
    k: int,
)
    requires
        0 <= k < lasted.len(),
        lasted.len() == jitter.len() == wait.len(),
        delays.len() == lasted.len() + 1,
        forall|i: int|
            0 <= i < lasted.len() ==> waits(
                #[trigger] delays[i],
                lasted[i],
                jitter[i],
                wait[i],
                delays[i + 1],
            ),
        delays[0] == 1 || lasted[0] > 10_000_000_000,
        forall|i: int| 0 < i <= k ==> #[trigger] lasted[i] <= 10_000_000_000,
    ensures
        wait[k] - jitter[k] == (if k == 0 {
            1000int
        } else if k == 1 {
            2000
        } else if k == 2 {
            4000
        } else if k == 3 {
            8000
        } else if k == 4 {
            16_000
        } else {
            30_000
        }),
        delays[k + 1] * 1000 == (if wait[k] - jitter[k] >= 15_000 {
            30_000
        } else {
            2 * (wait[k] - jitter[k])
        }),
    decreases k,
{
    assert(waits(delays[k], lasted[k], jitter[k], wait[k], delays[k + 1]));
    if k > 0 {
        law_waits_between_attempts(lasted, jitter, wait, delays, k - 1);
        assert(lasted[k] <= 10_000_000_000);
    }
}

/// Delays double up to the longest one: 1, 2, 4, 8, 16 and then 30 seconds.
pub proof fn law_delays_double(n: nat)
    ensures
        delay_after(0) == 1,
        1 <= delay_after(n) <= MAX_DELAY_SECS,
        n < 4 ==> delay_after(n + 1) == 2 * delay_after(n),
        n >= 5 ==> delay_after(n) == MAX_DELAY_SECS,
    decreases n,
{
    reveal_with_fuel(delay_after, 6);
    if n > 5 {
        law_delays_double((n - 1) as nat);
    }
}

/// The state of a sequence of attempts.
pub struct Backoff {
    delay: u64,
}

impl Backoff {
    /// The next delay, in seconds, unless the connection turns out healthy.
    pub closed spec fn spec_delay(&self) -> nat {
        self.delay as nat
    }

    #[verifier::type_invariant]
    spec fn inv(self) -> bool {
        1 <= self.delay <= MAX_DELAY_SECS
    }

    /// Before the first attempt.
    pub fn new() -> (r: Backoff)
        ensures
            r.spec_delay() == delay_after(0),
    {
        Backoff { delay: 1 }
    }

    /// A connection ended after `lasted_ns` nanoseconds: the time to wait before the next attempt,
    /// in milliseconds, with a random part.
    pub fn next_wait(&mut self, lasted_ns: u128, jitter_ms: u16) -> (r: u64)
        ensures
            1 <= old(self).spec_delay() <= MAX_DELAY_SECS,
            waits(
                old(self).spec_delay(),
                lasted_ns,
                jitter_ms as nat,
                r as nat,
                final(self).spec_delay(),
            ),
    {
        proof {
            use_type_invariant(&*self);
        }
        let delay: u64 = if lasted_ns > HEALTHY_NS {
            1
        } else {
            self.delay
        };
        self.delay = if 2 * delay <= MAX_DELAY_SECS {
            2 * delay
        } else {
            MAX_DELAY_SECS
        };
        delay * 1000 + jitter_ms as u64
    }

    /// Like `next_wait`, with a random part below half a second, so that clients do not all come
    /// back at once.
    pub fn next_wait_jittered(&mut self, lasted_ns: u128) -> (r: u64)
        ensures
            current_delay(old(self).spec_delay(), lasted_ns) * 1000 <= r,
            r < current_delay(old(self).spec_delay(), lasted_ns) * 1000 + JITTER_MS,
            final(self).spec_delay() == next_delay(
                current_delay(old(self).spec_delay(), lasted_ns),
            ),
    {
        let jitter: u64 = random_below(JITTER_MS);
        self.next_wait(lasted_ns, jitter as u16)
    }
}

}
