use vstd::prelude::*;

verus! {

/// The signed difference `d` with `-32768 <= d <= 32767` that is congruent to
/// `diff` modulo 65536, for `-65536 < diff < 65536`.
pub open spec fn wrap_to_i16(diff: int) -> int {
    if diff > 32767 {
        diff - 65536
    } else if diff < -32768 {
        diff + 65536
    } else {
        diff
    }
}

/// Signed tick difference between two readings of a 16-bit hardware counter
/// that may have rolled over in between.
pub fn wrapping_delta_u16(previous: u16, current: u16) -> (delta: i16)
    ensures
        delta as int == wrap_to_i16(current - previous),
{
    let raw: u16 = current.wrapping_sub(previous);
    if raw > 32767 {
        let shifted: i32 = raw as i32 - 65536;
        shifted as i16
    } else {
        raw as i16
    }
}

/// The integer side of a wheel encoder: whether a first reading has been
/// taken, the last raw count, and the ticks accumulated since the last reset.
#[derive(Clone, Copy, Debug, PartialEq, Eq)]
pub struct TickCounter {
    initialized: bool,
    last_count: i32,
    total_ticks: i64,
}

pub struct TickCounterView {
    pub initialized: bool,
    pub last_count: i32,
    pub total_ticks: i64,
}

/// One `update_count(count)` call takes the counter from `a` to `b`.
pub open spec fn count_step(a: TickCounterView, count: i32, b: TickCounterView) -> bool {
    &&& b.initialized
    &&& b.last_count == count
    &&& b.total_ticks == a.total_ticks + if a.initialized {
        count - a.last_count
    } else {
        0
    }
}

impl View for TickCounter {
    type V = TickCounterView;

    closed spec fn view(&self) -> TickCounterView {
        TickCounterView {
            initialized: self.initialized,
            last_count: self.last_count,
            total_ticks: self.total_ticks,
        }
    }
}

impl TickCounter {
    /// A counter that has seen no reading yet.
    pub fn new() -> (t: Self)
        ensures
            !t@.initialized,
            t@.last_count == 0,
            t@.total_ticks == 0,
    {
        Self { initialized: false, last_count: 0, total_ticks: 0 }
    }

    /// Takes `current_count` as the reference reading and clears the total.
    pub fn reset(&mut self, current_count: i32)
        ensures
            final(self)@.initialized,
            final(self)@.last_count == current_count,
            final(self)@.total_ticks == 0,
    {
        self.initialized = true;
        self.last_count = current_count;
        self.total_ticks = 0;
    }

    pub fn is_initialized(&self) -> (b: bool)
        ensures
            b == self@.initialized,
    {
        self.initialized
    }

    pub fn last_count(&self) -> (c: i32)
        ensures
            c == self@.last_count,
    {
        self.last_count
    }

    pub fn total_ticks(&self) -> (t: i64)
        ensures
            t == self@.total_ticks,
    {
        self.total_ticks
    }

    /// Ticks since the previous 32-bit reading (zero for the first one),
    /// added to the total.
    pub fn update_count(&mut self, count: i32) -> (delta: i32)
        requires
            old(self)@.initialized ==> i32::MIN <= count - old(self)@.last_count <= i32::MAX,
            old(self)@.initialized ==> i64::MIN <= old(self)@.total_ticks + (count
                - old(self)@.last_count) <= i64::MAX,
        ensures
            delta == if old(self)@.initialized {
                count - old(self)@.last_count
            } else {
                0
            },
            final(self)@.initialized,
            final(self)@.last_count == count,
            final(self)@.total_ticks == old(self)@.total_ticks + delta,
            count_step(old(self)@, count, final(self)@),
    {
        let delta_ticks = if self.initialized {
            count - self.last_count
        } else {
            self.initialized = true;
            0
        };
        self.last_count = count;
        self.total_ticks += delta_ticks as i64;
        delta_ticks
    }

    /// Ticks since the previous reading of a 16-bit counter that may have
    /// rolled over (zero for the first one), added to the total.
    pub fn update_wrapping_u16(&mut self, count: u16) -> (delta: i32)
        requires
            old(self)@.initialized ==> i64::MIN <= old(self)@.total_ticks + wrap_to_i16(
                count - (old(self)@.last_count as u16),
            ) <= i64::MAX,
        ensures
            delta == if old(self)@.initialized {
                wrap_to_i16(count - (old(self)@.last_count as u16))
            } else {
                0
            },
            final(self)@.initialized,
            final(self)@.last_count == count as i32,
            final(self)@.total_ticks == old(self)@.total_ticks + delta,
    {
        let count_i32 = count as i32;
        let delta_ticks = if self.initialized {
            wrapping_delta_u16(self.last_count as u16, count) as i32
        } else {
            self.initialized = true;
            0
        };
        self.last_count = count_i32;
        self.total_ticks += delta_ticks as i64;
        delta_ticks
    }
}

/// The rolled-over difference is exact for any true difference that fits in
/// `i16`: reading `previous + k` (mod 65536) after `previous` yields `k`.
pub proof fn lemma_wrapping_delta_recovers(previous: u16, k: int)
    requires
        -32768 <= k <= 32767,
    ensures
        wrap_to_i16(((previous + k) % 65536) - previous) == k,
{
    assert(0 <= (previous + k) % 65536 < 65536);
    if previous + k >= 65536 {
        assert((previous + k) % 65536 == previous + k - 65536);
    } else if previous + k < 0 {
        assert((previous + k) % 65536 == previous + k + 65536);
    } else {
        assert((previous + k) % 65536 == previous + k);
    }
}

/// Swapping the readings negates the difference, except for the one
/// difference, -32768, whose negation does not fit in `i16`.
pub proof fn lemma_wrapping_delta_antisymmetric(a: u16, b: u16)
    requires
        wrap_to_i16(b - a) != -32768,
    ensures
        wrap_to_i16(a - b) == -wrap_to_i16(b - a),
{
}

/// Over any run of `update_count` calls the total grows by the last count
/// minus the baseline: the last count before the run when the counter was
/// already initialized (by `reset` or an earlier reading), else the run's
/// first count.
pub proof fn lemma_update_count_run(states: Seq<TickCounterView>, counts: Seq<i32>)
    requires
        counts.len() >= 1,
        states.len() == counts.len() + 1,
        forall|i: int, j: int|
            0 <= i < counts.len() && j == i + 1 ==> count_step(
                #[trigger] states[i],
                counts[i],
                #[trigger] states[j],
            ),
    ensures
        states.last().initialized,
        states.last().last_count == counts.last(),
        states.last().total_ticks == states[0].total_ticks + counts.last() - if states[0].initialized {
            states[0].last_count as int
        } else {
            counts[0] as int
        },
    decreases counts.len(),
{
    let n = counts.len() as int;
    assert(count_step(states[n - 1], counts[n - 1], states[n]));
    if n > 1 {
        let s1 = states.drop_last();
        let c1 = counts.drop_last();
        assert forall|i: int, j: int| 0 <= i < c1.len() && j == i + 1 implies count_step(
            #[trigger] s1[i],
            c1[i],
            #[trigger] s1[j],
        ) by {
            assert(s1[i] == states[i] && s1[j] == states[j] && c1[i] == counts[i]);
        }
        lemma_update_count_run(s1, c1);
        assert(s1.last() == states[n - 1]);
    }
}

} // verus!
