use vstd::prelude::*;
use std::collections::VecDeque;
use std::time::Instant;
use crate::tx::{instant_now, nanos_since};

verus! {

/// The sequence without its leading times before `cutoff`.
pub open spec fn drop_before(s: Seq<u64>, cutoff: u64) -> Seq<u64>
    decreases s.len(),
{
    if s.len() > 0 && s[0] < cutoff { drop_before(s.drop_first(), cutoff) } else { s }
}

/// Start of the window that ends at `now`.
pub open spec fn window_start(now: u64, window: u64) -> u64 {
    if now >= window { (now - window) as u64 } else { 0 }
}

/// Number of times in the sequence at or after `cutoff`.
pub open spec fn count_from(s: Seq<u64>, cutoff: u64) -> int
    decreases s.len(),
{
    if s.len() == 0 { 0 } else { (if s.last() >= cutoff { 1int } else { 0 }) + count_from(s.drop_last(), cutoff) }
}

/// The integer counters of builder metrics.
#[derive(Debug, Clone, Copy)]
pub struct MetricCounts {
    pub tx_received: u64,
    pub tx_added: u64,
    pub tx_replaced: u64,
    pub tx_rejected: u64,
    pub blocks_built: u64,
    pub total_gas_used: u64,
    pub total_value_extracted: u64,
}

impl MetricCounts {
    /// Every received transaction is counted under exactly one outcome.
    pub open spec fn wf(&self) -> bool {
        self.tx_received == self.tx_added + self.tx_replaced + self.tx_rejected
    }

    /// All counters at zero.
    pub fn new() -> (c: Self)
        ensures
            c.wf(),
            c == (MetricCounts {
                tx_received: 0,
                tx_added: 0,
                tx_replaced: 0,
                tx_rejected: 0,
                blocks_built: 0,
                total_gas_used: 0,
                total_value_extracted: 0,
            }),
    {
        MetricCounts {
            tx_received: 0,
            tx_added: 0,
            tx_replaced: 0,
            tx_rejected: 0,
            blocks_built: 0,
            total_gas_used: 0,
            total_value_extracted: 0,
        }
    }

    /// Whether one more transaction can be counted without overflow.
    pub fn can_record_tx(&self) -> (b: bool)
        ensures
            b == (self.tx_received < u64::MAX),
    {
        self.tx_received < u64::MAX
    }

    /// Count a transaction: added, else replaced, else rejected.
    pub fn record_tx(&mut self, added: bool, replaced: bool)
        requires
            old(self).wf(),
            old(self).tx_received < u64::MAX,
        ensures
            final(self).wf(),
            *final(self) == (MetricCounts {
                tx_received: (old(self).tx_received + 1) as u64,
                tx_added: (old(self).tx_added + if added { 1int } else { 0 }) as u64,
                tx_replaced: (old(self).tx_replaced + if !added && replaced { 1int } else { 0 }) as u64,
                tx_rejected: (old(self).tx_rejected + if !added && !replaced { 1int } else { 0 }) as u64,
                ..*old(self)
            }),
    {
        self.tx_received = self.tx_received + 1;
        if added {
            self.tx_added = self.tx_added + 1;
        } else if replaced {
            self.tx_replaced = self.tx_replaced + 1;
        } else {
            self.tx_rejected = self.tx_rejected + 1;
        }
    }

    /// Whether one more block can be counted without overflow.
    pub fn can_record_block(&self, gas_used: u64, value: u64) -> (b: bool)
        ensures
            b == (self.blocks_built < u64::MAX && self.total_gas_used + gas_used <= u64::MAX
                && self.total_value_extracted + value <= u64::MAX),
    {
        self.blocks_built < u64::MAX
            && gas_used <= u64::MAX - self.total_gas_used
            && value <= u64::MAX - self.total_value_extracted
    }

    /// Count a block with its gas and value.
    pub fn record_block(&mut self, gas_used: u64, value: u64)
        requires
            old(self).blocks_built < u64::MAX,
            old(self).total_gas_used + gas_used <= u64::MAX,
            old(self).total_value_extracted + value <= u64::MAX,
        ensures
            *final(self) == (MetricCounts {
                blocks_built: (old(self).blocks_built + 1) as u64,
                total_gas_used: (old(self).total_gas_used + gas_used) as u64,
                total_value_extracted: (old(self).total_value_extracted + value) as u64,
                ..*old(self)
            }),
    {
        self.blocks_built = self.blocks_built + 1;
        self.total_gas_used = self.total_gas_used + gas_used;
        self.total_value_extracted = self.total_value_extracted + value;
    }
}

/// Tracks events over a sliding time window. Times are nanoseconds since the
/// tracker was created.
#[derive(Debug)]
pub struct RateTracker {
    window: u64,
    events: VecDeque<u64>,
    origin: Instant,
}

impl RateTracker {
    /// The window, in nanoseconds.
    pub closed spec fn spec_window(&self) -> u64 {
        self.window
    }

    /// The recorded event times still held, oldest first.
    pub closed spec fn spec_events(&self) -> Seq<u64> {
        self.events@
    }

    /// A tracker with no events over a window of `window` nanoseconds.
    pub fn new(window: u64) -> (t: Self)
        ensures
            t.spec_window() == window,
            t.spec_events() == Seq::<u64>::empty(),
    {
        RateTracker { window, events: VecDeque::new(), origin: instant_now() }
    }

    /// Record an event now.
    pub fn record(&mut self)
        ensures
            final(self).spec_window() == old(self).spec_window(),
            exists|t: u64| final(self).spec_events()
                == drop_before(old(self).spec_events().push(t), window_start(t, old(self).spec_window())),
    {
        let now = nanos_since(&self.origin);
        self.record_at(now);
    }

    /// Record an event at a time; the events before the window that ends at that
    /// time leave the front.
    pub fn record_at(&mut self, time: u64)
        ensures
            final(self).spec_window() == old(self).spec_window(),
            final(self).spec_events()
                == drop_before(old(self).spec_events().push(time), window_start(time, old(self).spec_window())),
    {
        self.events.push_back(time);
        self.prune(time);
    }

    fn prune(&mut self, now: u64)
        ensures
            final(self).spec_window() == old(self).spec_window(),
            final(self).origin == old(self).origin,
            final(self).spec_events() == drop_before(old(self).spec_events(), window_start(now, old(self).spec_window())),
    {
        let cutoff = now.saturating_sub(self.window);
        let ghost s = self.events@;
        while self.events.len() > 0 && self.events[0] < cutoff
            invariant
                self.window == old(self).window,
                self.origin == old(self).origin,
                cutoff == window_start(now, self.window),
                drop_before(self.events@, cutoff) == drop_before(s, cutoff),
            decreases self.events@.len(),
        {
            let ghost before = self.events@;
            self.events.pop_front();
            proof {
                assert(self.events@ =~= before.drop_first());
            }
        }
    }

    /// Number of held events at or after the start of the window that ends at
    /// `now`.
    pub fn count_since(&self, now: u64) -> (n: usize)
        ensures
            n == count_from(self.spec_events(), window_start(now, self.spec_window())),
    {
        let cutoff = now.saturating_sub(self.window);
        let len = self.events.len();
        let mut n: usize = 0;
        let mut i: usize = 0;
        let ghost s = self.events@;
        proof { assert(s.take(0) =~= Seq::<u64>::empty()); }
        while i < len
            invariant
                s == self.events@,
                len == s.len(),
                i <= len,
                n <= i,
                n == count_from(s.take(i as int), cutoff),
            decreases len - i,
        {
            proof { assert(s.take(i as int + 1).drop_last() =~= s.take(i as int)); }
            if self.events[i] >= cutoff {
                n = n + 1;
            }
            i = i + 1;
        }
        proof { assert(s.take(len as int) =~= s); }
        n
    }

    /// Number of held events in the window that ends now.
    pub fn count_in_window(&self) -> (n: usize)
        ensures
            exists|t: u64| n == count_from(self.spec_events(), #[trigger] window_start(t, self.spec_window())),
    {
        let now = nanos_since(&self.origin);
        self.count_since(now)
    }

    /// The window, in nanoseconds.
    pub fn window(&self) -> (w: u64)
        ensures
            w == self.spec_window(),
    {
        self.window
    }

    /// Number of held events.
    pub fn count(&self) -> (n: usize)
        ensures
            n == self.spec_events().len(),
    {
        self.events.len()
    }
}

/// Counting from the front: the first time counts when it is at or after the
/// cutoff, then the rest.
proof fn lemma_count_from_front(s: Seq<u64>, c: u64)
    requires
        s.len() > 0,
    ensures
        count_from(s, c) == (if s[0] >= c { 1int } else { 0 }) + count_from(s.drop_first(), c),
    decreases s.len(),
{
    if s.len() > 1 {
        lemma_count_from_front(s.drop_last(), c);
        assert(s.drop_last().drop_first() =~= s.drop_first().drop_last());
        assert(s.drop_first().last() == s.last());
    } else {
        assert(s.drop_first() =~= Seq::<u64>::empty());
        assert(s.drop_last() =~= Seq::<u64>::empty());
    }
}

/// Pruning loses no event of a window that starts at or after the cutoff: the
/// held events count the same as all recorded ones there.
pub proof fn lemma_prune_keeps_window(s: Seq<u64>, cutoff: u64, c: u64)
    requires
        cutoff <= c,
    ensures
        count_from(drop_before(s, cutoff), c) == count_from(s, c),
    decreases s.len(),
{
    if s.len() > 0 && s[0] < cutoff {
        lemma_prune_keeps_window(s.drop_first(), cutoff, c);
        lemma_count_from_front(s, c);
    }
}

/// Times that never decrease keep, after pruning, only times at or after the
/// cutoff, so every held event is in the window and the count is the number
/// held.
pub proof fn lemma_sorted_window(s: Seq<u64>, cutoff: u64)
    requires
        forall|i: int, j: int| 0 <= i <= j < s.len() ==> #[trigger] s[i] <= #[trigger] s[j],
    ensures
        forall|k: int| 0 <= k < drop_before(s, cutoff).len() ==> #[trigger] drop_before(s, cutoff)[k] >= cutoff,
        count_from(drop_before(s, cutoff), cutoff) == drop_before(s, cutoff).len(),
    decreases s.len(),
{
    if s.len() > 0 && s[0] < cutoff {
        let d = s.drop_first();
        assert forall|i: int, j: int| 0 <= i <= j < d.len() implies #[trigger] d[i] <= #[trigger] d[j] by {
            assert(s[i + 1] <= s[j + 1]);
        }
        lemma_sorted_window(d, cutoff);
    } else if s.len() > 0 {
        assert forall|k: int| 0 <= k < s.len() implies #[trigger] s[k] >= cutoff by {
            assert(s[0] <= s[k]);
        }
        lemma_count_all(s, cutoff);
    }
}

proof fn lemma_count_all(s: Seq<u64>, c: u64)
    requires
        forall|k: int| 0 <= k < s.len() ==> #[trigger] s[k] >= c,
    ensures
        count_from(s, c) == s.len(),
    decreases s.len(),
{
    if s.len() > 0 {
        assert forall|k: int| 0 <= k < s.drop_last().len() implies #[trigger] s.drop_last()[k] >= c by {
            assert(s.drop_last()[k] == s[k]);
        }
        lemma_count_all(s.drop_last(), c);
        assert(s.last() == s[s.len() - 1]);
    }
}

} // verus!
