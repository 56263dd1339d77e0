use vstd::prelude::*;

verus! {

/// A clock, real or simulated. Times are durations since the clock's start,
/// in nanoseconds.
pub trait Clock {
    /// Time since the clock's start.
    fn now(&self) -> u64;

    /// Sleep for a duration (no-op in simulated mode).
    fn sleep(&self, duration: u64);

    /// Advance time (only works in simulated mode).
    fn advance(&mut self, duration: u64);

    /// Whether this is a simulated clock.
    fn is_simulated(&self) -> bool;
}

/// A simulated clock whose time moves only when advanced.
#[derive(Debug)]
pub struct SimulatedClock {
    /// Current time in nanoseconds
    pub current: u64,
}

impl SimulatedClock {
    /// A simulated clock at time zero.
    pub fn new() -> (c: Self)
        ensures
            c.current == 0,
    {
        SimulatedClock { current: 0 }
    }

    /// A simulated clock at a given time.
    pub fn at(start: u64) -> (c: Self)
        ensures
            c.current == start,
    {
        SimulatedClock { current: start }
    }
}

impl Default for SimulatedClock {
    fn default() -> (c: Self)
        ensures
            c.current == 0,
    {
        SimulatedClock::new()
    }
}

impl Clock for SimulatedClock {
    fn now(&self) -> (t: u64)
        ensures
            t == self.current,
    {
        self.current
    }

    fn sleep(&self, duration: u64) {
    }

    /// Time moves forward by the duration, saturating at the largest time.
    fn advance(&mut self, duration: u64)
        ensures
            final(self).current == if old(self).current + duration <= u64::MAX {
                (old(self).current + duration) as u64
            } else {
                u64::MAX
            },
    {
        self.current = self.current.saturating_add(duration);
    }

    fn is_simulated(&self) -> (b: bool)
        ensures
            b,
    {
        true
    }
}

/// An event due at a time (nanoseconds).
#[derive(Debug, Clone)]
pub struct TimedEvent<T> {
    pub time: u64,
    pub event: T,
}

impl<T> TimedEvent<T> {
    /// An event due at a time.
    pub fn new(time: u64, event: T) -> (e: Self)
        ensures
            e.time == time,
            e.event == event,
    {
        TimedEvent { time, event }
    }
}

impl<T> PartialEq for TimedEvent<T> {
    fn eq(&self, other: &Self) -> (r: bool) {
        self.time == other.time
    }
}

impl<T> vstd::std_specs::cmp::PartialEqSpecImpl for TimedEvent<T> {
    open spec fn obeys_eq_spec() -> bool {
        true
    }

    open spec fn eq_spec(&self, other: &Self) -> bool {
        self.time == other.time
    }
}

impl<T> Eq for TimedEvent<T> {}

/// The events are in order of time.
pub open spec fn time_ordered<T>(s: Seq<TimedEvent<T>>) -> bool {
    forall|i: int, j: int| 0 <= i <= j < s.len() ==> #[trigger] s[i].time <= #[trigger] s[j].time
}

/// A queue of timed events for discrete event simulation: events come out
/// earliest first, and events due at the same time in the order they went in.
pub struct EventQueue<T> {
    /// Pending events, earliest first
    events: Vec<TimedEvent<T>>,
}

impl<T> EventQueue<T> {
    /// The pending events, earliest first.
    pub closed spec fn spec_events(&self) -> Seq<TimedEvent<T>> {
        self.events@
    }

    /// The pending events are in order of time.
    pub open spec fn wf(&self) -> bool {
        time_ordered(self.spec_events())
    }

    /// An empty queue.
    pub fn new() -> (q: Self)
        ensures
            q.wf(),
            q.spec_events() == Seq::<TimedEvent<T>>::empty(),
    {
        EventQueue { events: Vec::new() }
    }

    /// Add an event, after every pending event due no later than it.
    pub fn push(&mut self, event: TimedEvent<T>)
        requires
            old(self).wf(),
        ensures
            final(self).wf(),
            exists|pos: int| {
                &&& 0 <= pos <= old(self).spec_events().len()
                &&& final(self).spec_events() == old(self).spec_events().insert(pos, event)
                &&& forall|j: int| 0 <= j < pos ==> #[trigger] old(self).spec_events()[j].time <= event.time
                &&& forall|j: int| pos <= j < old(self).spec_events().len() ==> #[trigger] old(self).spec_events()[j].time > event.time
            },
    {
        let n = self.events.len();
        let mut pos: usize = 0;
        while pos < n && self.events[pos].time <= event.time
            invariant
                n == self.events@.len(),
                pos <= n,
                forall|j: int| 0 <= j < pos ==> #[trigger] self.events@[j].time <= event.time,
            decreases n - pos,
        {
            pos = pos + 1;
        }
        let ghost s = self.events@;
        proof {
            assert forall|j: int| pos <= j < s.len() implies #[trigger] s[j].time > event.time by {
                assert(s[pos as int].time <= s[j].time);
            }
        }
        self.events.insert(pos, event);
        proof {
            let f = self.events@;
            assert(f == s.insert(pos as int, event));
            assert forall|i: int, j: int| 0 <= i <= j < f.len() implies #[trigger] f[i].time <= #[trigger] f[j].time by {
                if i < pos && j < pos {
                    assert(f[i] == s[i] && f[j] == s[j]);
                } else if i < pos && j == pos {
                    assert(f[i] == s[i]);
                } else if i < pos {
                    assert(f[i] == s[i] && f[j] == s[j - 1]);
                } else if i == pos && j > pos {
                    assert(f[j] == s[j - 1]);
                } else if i > pos {
                    assert(f[i] == s[i - 1] && f[j] == s[j - 1]);
                }
            }
        }
    }

    /// Add an event due at a time.
    pub fn schedule(&mut self, time: u64, event: T)
        requires
            old(self).wf(),
        ensures
            final(self).wf(),
            exists|pos: int| {
                &&& 0 <= pos <= old(self).spec_events().len()
                &&& final(self).spec_events() == old(self).spec_events().insert(pos, TimedEvent { time, event })
                &&& forall|j: int| 0 <= j < pos ==> #[trigger] old(self).spec_events()[j].time <= time
                &&& forall|j: int| pos <= j < old(self).spec_events().len() ==> #[trigger] old(self).spec_events()[j].time > time
            },
    {
        self.push(TimedEvent::new(time, event));
    }

    /// Remove and return the earliest event; `None` when empty.
    pub fn pop(&mut self) -> (r: Option<TimedEvent<T>>)
        requires
            old(self).wf(),
        ensures
            final(self).wf(),
            old(self).spec_events().len() == 0 ==> r is None && final(self).spec_events() == old(self).spec_events(),
            old(self).spec_events().len() > 0 ==> {
                &&& r == Some(old(self).spec_events()[0])
                &&& final(self).spec_events() == old(self).spec_events().drop_first()
                &&& forall|j: int| 0 <= j < old(self).spec_events().len() ==>
                    old(self).spec_events()[0].time <= #[trigger] old(self).spec_events()[j].time
            },
    {
        if self.events.len() == 0 {
            return None;
        }
        let ghost s = self.events@;
        let e = self.events.remove(0);
        proof {
            assert(self.events@ =~= s.drop_first());
            assert forall|i: int, j: int| 0 <= i <= j < self.events@.len() implies
                #[trigger] self.events@[i].time <= #[trigger] self.events@[j].time by {
                assert(self.events@[i] == s[i + 1] && self.events@[j] == s[j + 1]);
            }
            assert forall|j: int| 0 <= j < s.len() implies s[0].time <= #[trigger] s[j].time by {}
        }
        Some(e)
    }

    /// The earliest event; `None` when empty.
    pub fn peek(&self) -> (r: Option<&TimedEvent<T>>)
        ensures
            self.spec_events().len() == 0 ==> r is None,
            self.spec_events().len() > 0 ==> r == Some(&self.spec_events()[0]),
    {
        if self.events.len() == 0 {
            None
        } else {
            Some(&self.events[0])
        }
    }

    /// The time of the earliest event; `None` when empty.
    pub fn peek_time(&self) -> (r: Option<u64>)
        ensures
            self.spec_events().len() == 0 ==> r is None,
            self.spec_events().len() > 0 ==> r == Some(self.spec_events()[0].time),
    {
        if self.events.len() == 0 {
            None
        } else {
            Some(self.events[0].time)
        }
    }

    /// The pending events, earliest first.
    pub fn events(&self) -> (e: &[TimedEvent<T>])
        ensures
            e@ == self.spec_events(),
    {
        self.events.as_slice()
    }

    /// Whether no event is pending.
    pub fn is_empty(&self) -> (b: bool)
        ensures
            b == (self.spec_events().len() == 0),
    {
        self.events.len() == 0
    }

    /// Number of pending events.
    pub fn len(&self) -> (n: usize)
        ensures
            n == self.spec_events().len(),
    {
        self.events.len()
    }

    /// The events due no later than `end_time`, earliest first; the queue is
    /// consumed.
    pub fn due_until(self, end_time: u64) -> (due: Vec<TimedEvent<T>>)
        requires
            self.wf(),
        ensures
            due@ == self.spec_events().filter(|e: TimedEvent<T>| e.time <= end_time),
            due@ == self.spec_events().take(due@.len() as int),
    {
        let mut q = self;
        let ghost s = q.events@;
        let mut due: Vec<TimedEvent<T>> = Vec::new();
        let ghost mut k: int = 0;
        loop
            invariant
                q.wf(),
                time_ordered(s),
                0 <= k <= s.len(),
                q.events@ == s.skip(k),
                due@ == s.take(k),
                forall|j: int| 0 <= j < k ==> #[trigger] s[j].time <= end_time,
            ensures
                due@ == s.take(k),
                k == s.len() || s[k].time > end_time,
                forall|j: int| 0 <= j < k ==> #[trigger] s[j].time <= end_time,
            decreases s.len() - k,
        {
            match q.peek_time() {
                Some(t) => {
                    if t > end_time {
                        proof { assert(s[k] == q.events@[0]); }
                        break;
                    }
                },
                None => {
                    break;
                },
            }
            let e = q.pop();
            match e {
                Some(e) => {
                    proof {
                        assert(s[k] == e);
                        assert(s.take(k + 1) =~= s.take(k).push(e));
                        assert(s.skip(k + 1) =~= s.skip(k).drop_first());
                    }
                    due.push(e);
                },
                None => {},
            }
            proof { k = k + 1; }
        }
        proof {
            lemma_filter_prefix(s, end_time, k);
        }
        due
    }
}

proof fn lemma_filter_prefix<T>(s: Seq<TimedEvent<T>>, end_time: u64, k: int)
    requires
        time_ordered(s),
        0 <= k <= s.len(),
        k == s.len() || s[k].time > end_time,
        forall|j: int| 0 <= j < k ==> #[trigger] s[j].time <= end_time,
    ensures
        s.filter(|e: TimedEvent<T>| e.time <= end_time) == s.take(k),
    decreases s.len(),
{
    reveal(Seq::filter);
    let pred = |e: TimedEvent<T>| e.time <= end_time;
    if s.len() == 0 {
        assert(s.take(k) =~= s);
    } else if k == s.len() {
        let t = s.drop_last();
        assert forall|i: int, j: int| 0 <= i <= j < t.len() implies #[trigger] t[i].time <= #[trigger] t[j].time by {
            assert(t[i] == s[i] && t[j] == s[j]);
        }
        lemma_filter_prefix(t, end_time, k - 1);
        assert(s.take(k) =~= t.take(k - 1).push(s.last()));
    } else {
        let t = s.drop_last();
        assert forall|i: int, j: int| 0 <= i <= j < t.len() implies #[trigger] t[i].time <= #[trigger] t[j].time by {
            assert(t[i] == s[i] && t[j] == s[j]);
        }
        assert(s.last().time > end_time) by {
            assert(s[k].time <= s[s.len() - 1].time);
        }
        if k < t.len() {
            assert(t[k] == s[k]);
        }
        lemma_filter_prefix(t, end_time, k);
        assert(s.take(k) =~= t.take(k));
    }
}

impl<T> Default for EventQueue<T> {
    fn default() -> (q: Self)
        ensures
            q.wf(),
            q.spec_events() == Seq::<TimedEvent<T>>::empty(),
    {
        EventQueue::new()
    }
}

/// Run a discrete event simulation: hand the handler each event due no later
/// than `end_time`, earliest first (the ones `due_until` lists).
pub fn run_discrete_simulation<T, F: FnMut(u64, T)>(events: EventQueue<T>, end_time: u64, mut handler: F)
    requires
        events.wf(),
        forall|f: F, t: u64, e: T| call_requires(f, (t, e)),
{
    let mut due = events.due_until(end_time);
    while due.len() > 0
        invariant
            forall|f: F, t: u64, e: T| call_requires(f, (t, e)),
        decreases due.len(),
    {
        let e = due.remove(0);
        handler(e.time, e.event);
    }
}

/// Pop `i` of a run of pops: queue `qs[i]` is not empty, it hands out its first
/// event `out[i]`, and the rest is the next queue.
pub open spec fn pops_at<T>(qs: Seq<Seq<TimedEvent<T>>>, out: Seq<TimedEvent<T>>, i: int) -> bool {
    &&& qs[i].len() > 0
    &&& out[i] == qs[i][0]
    &&& qs[i + 1] == qs[i].drop_first()
}

/// Repeated pops hand out every event once, in the queue's order, which is the
/// order of time: after `n` pops the events handed out are the first `n` of the
/// queue, in time order, and the queue holds the rest.
pub proof fn lemma_pops_in_order<T>(qs: Seq<Seq<TimedEvent<T>>>, out: Seq<TimedEvent<T>>)
    requires
        qs.len() == out.len() + 1,
        time_ordered(qs[0]),
        forall|i: int| 0 <= i < out.len() ==> #[trigger] pops_at(qs, out, i),
    ensures
        out.len() <= qs[0].len(),
        out == qs[0].take(out.len() as int),
        qs.last() == qs[0].skip(out.len() as int),
        time_ordered(out),
    decreases out.len(),
{
    if out.len() > 0 {
        let m = out.len() - 1;
        let qd = qs.drop_last();
        let od = out.drop_last();
        assert forall|i: int| 0 <= i < od.len() implies #[trigger] pops_at(qd, od, i) by {
            assert(pops_at(qs, out, i));
            assert(qd[i] == qs[i] && qd[i + 1] == qs[i + 1] && od[i] == out[i]);
        }
        assert(qd[0] == qs[0]);
        lemma_pops_in_order(qd, od);
        assert(pops_at(qs, out, m));
        assert(qs[m] == qd.last());
        assert(qs[m] == qs[0].skip(m));
        assert(qs[0].len() > m);
        assert(out =~= qs[0].take(out.len() as int)) by {
            assert forall|k: int| 0 <= k < out.len() implies out[k] == qs[0].take(out.len() as int)[k] by {
                if k < m {
                    assert(out[k] == od[k]);
                } else {
                    assert(out[m] == qs[m][0]);
                    assert(qs[m][0] == qs[0][m]);
                }
            }
        }
        assert(qs.last() == qs[m].drop_first());
        assert(qs.last() =~= qs[0].skip(out.len() as int));
    }
    assert forall|i: int, j: int| 0 <= i <= j < out.len() implies #[trigger] out[i].time <= #[trigger] out[j].time by {
        assert(out[i] == qs[0].take(out.len() as int)[i]);
        assert(out[j] == qs[0].take(out.len() as int)[j]);
    }
}

} // verus!
