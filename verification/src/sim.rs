use vstd::prelude::*;
use vstd::multiset::Multiset;
use crate::block::Block;
use crate::builder::{Builder, IncrementalStats, UpdateResult};
use crate::seqs::ids_distinct;
use crate::time::{Clock, EventQueue, SimulatedClock, TimedEvent, time_ordered};
use crate::tx::Tx;

verus! {

/// Events in the simulation.
#[derive(Debug, Clone, Copy)]
pub enum SimEvent {
    /// A transaction arrives
    TxArrival(Tx),
    /// Time to seal a block
    BlockSeal,
    /// End the simulation
    End,
}

/// Stats for a single block of a simulation; `seal_time` is in nanoseconds.
#[derive(Debug, Clone, Copy)]
pub struct BlockSimStats {
    pub block_number: u64,
    pub seal_time: u64,
    pub tx_count: usize,
    pub gas_used: u64,
    pub total_value: u64,
    pub incremental_stats: IncrementalStats,
}

/// Result of a simulation run; durations are in nanoseconds.
#[derive(Debug)]
pub struct SimulationResult {
    /// All blocks produced
    pub blocks: Vec<Block>,
    /// Transactions that were generated but not included
    pub pending_txs: Vec<Tx>,
    /// Total transactions generated
    pub txs_generated: u64,
    /// Total transactions included in blocks
    pub txs_included: u64,
    /// Simulated duration
    pub sim_duration: u64,
    /// Real wall-clock duration
    pub real_duration: u64,
    /// Per-block stats
    pub block_stats: Vec<BlockSimStats>,
}

/// Total value of the blocks.
pub open spec fn sum_block_values(blocks: Seq<Block>) -> int
    decreases blocks.len(),
{
    if blocks.len() == 0 { 0 } else { sum_block_values(blocks.drop_last()) + blocks.last().total_value }
}

/// Total gas used by the blocks.
pub open spec fn sum_block_gas(blocks: Seq<Block>) -> int
    decreases blocks.len(),
{
    if blocks.len() == 0 { 0 } else { sum_block_gas(blocks.drop_last()) + blocks.last().gas_used }
}

/// Total number of transactions in the blocks.
pub open spec fn sum_block_txs(blocks: Seq<Block>) -> int
    decreases blocks.len(),
{
    if blocks.len() == 0 { 0 } else { sum_block_txs(blocks.drop_last()) + blocks.last().transactions@.len() }
}

proof fn lemma_block_sums_prefix(blocks: Seq<Block>, i: int)
    requires
        0 <= i <= blocks.len(),
    ensures
        0 <= sum_block_values(blocks.take(i)) <= sum_block_values(blocks),
        0 <= sum_block_gas(blocks.take(i)) <= sum_block_gas(blocks),
    decreases blocks.len() - i,
{
    if i == blocks.len() {
        assert(blocks.take(i) =~= blocks);
        lemma_block_sums_nonneg(blocks);
    } else {
        lemma_block_sums_prefix(blocks, i + 1);
        assert(blocks.take(i + 1).drop_last() =~= blocks.take(i));
        lemma_block_sums_nonneg(blocks.take(i));
    }
}

proof fn lemma_block_sums_nonneg(blocks: Seq<Block>)
    ensures
        0 <= sum_block_values(blocks),
        0 <= sum_block_gas(blocks),
        0 <= sum_block_txs(blocks),
    decreases blocks.len(),
{
    if blocks.len() > 0 {
        lemma_block_sums_nonneg(blocks.drop_last());
    }
}

impl SimulationResult {
    /// Total value of the blocks.
    pub fn total_value(&self) -> (v: u64)
        requires
            sum_block_values(self.blocks@) <= u64::MAX,
        ensures
            v == sum_block_values(self.blocks@),
    {
        let n = self.blocks.len();
        let mut total: u64 = 0;
        let mut i: usize = 0;
        proof { assert(self.blocks@.take(0) =~= Seq::<Block>::empty()); }
        while i < n
            invariant
                n == self.blocks@.len(),
                i <= n,
                sum_block_values(self.blocks@) <= u64::MAX,
                total == sum_block_values(self.blocks@.take(i as int)),
            decreases n - i,
        {
            proof {
                assert(self.blocks@.take(i as int + 1).drop_last() =~= self.blocks@.take(i as int));
                lemma_block_sums_prefix(self.blocks@, i as int + 1);
            }
            total = total + self.blocks[i].total_value;
            i = i + 1;
        }
        proof { assert(self.blocks@.take(n as int) =~= self.blocks@); }
        total
    }

    /// Total gas used by the blocks.
    pub fn total_gas(&self) -> (g: u64)
        requires
            sum_block_gas(self.blocks@) <= u64::MAX,
        ensures
            g == sum_block_gas(self.blocks@),
    {
        let n = self.blocks.len();
        let mut total: u64 = 0;
        let mut i: usize = 0;
        proof { assert(self.blocks@.take(0) =~= Seq::<Block>::empty()); }
        while i < n
            invariant
                n == self.blocks@.len(),
                i <= n,
                sum_block_gas(self.blocks@) <= u64::MAX,
                total == sum_block_gas(self.blocks@.take(i as int)),
            decreases n - i,
        {
            proof {
                assert(self.blocks@.take(i as int + 1).drop_last() =~= self.blocks@.take(i as int));
                lemma_block_sums_prefix(self.blocks@, i as int + 1);
            }
            total = total + self.blocks[i].gas_used;
            i = i + 1;
        }
        proof { assert(self.blocks@.take(n as int) =~= self.blocks@); }
        total
    }
}

/// Results from several simulation runs.
#[derive(Debug)]
pub struct MonteCarloResult {
    pub results: Vec<SimulationResult>,
}

impl MonteCarloResult {
    /// Number of runs.
    pub fn iterations(&self) -> (n: usize)
        ensures
            n == self.results@.len(),
    {
        self.results.len()
    }
}

/// The block seals due at `t`, `t + block_time`, ... up to `end`.
pub open spec fn seals_from(t: int, block_time: u64, end: u64) -> Multiset<TimedEvent<SimEvent>>
    decreases (if t <= end { end - t + 1 } else { 0 }),
{
    if t > end || block_time == 0 || t < 0 {
        Multiset::empty()
    } else {
        seals_from(t + block_time, block_time, end).insert(TimedEvent { time: t as u64, event: SimEvent::BlockSeal })
    }
}

/// Schedule a block seal every `block_time` nanoseconds, from `block_time` up to
/// and including `sim_duration`.
pub fn schedule_seals(events: &mut EventQueue<SimEvent>, block_time: u64, sim_duration: u64)
    requires
        old(events).wf(),
        block_time > 0,
        sim_duration + block_time <= u64::MAX,
    ensures
        final(events).wf(),
        final(events).spec_events().to_multiset()
            == old(events).spec_events().to_multiset().add(seals_from(block_time as int, block_time, sim_duration)),
{
    let mut seal_time = block_time;
    while seal_time <= sim_duration
        invariant
            events.wf(),
            block_time > 0,
            sim_duration + block_time <= u64::MAX,
            seal_time >= block_time,
            seal_time <= sim_duration + block_time,
            events.spec_events().to_multiset().add(seals_from(seal_time as int, block_time, sim_duration))
                == old(events).spec_events().to_multiset().add(seals_from(block_time as int, block_time, sim_duration)),
        decreases sim_duration + block_time - seal_time,
    {
        let ghost before = events.spec_events();
        events.schedule(seal_time, SimEvent::BlockSeal);
        proof {
            let e = TimedEvent { time: seal_time, event: SimEvent::BlockSeal };
            let pos = choose|pos: int| 0 <= pos <= before.len() && #[trigger] before.insert(pos, e) == events.spec_events();
            lemma_insert_multiset(before, pos, e);
            assert(seals_from(seal_time as int, block_time, sim_duration)
                == seals_from(seal_time + block_time, block_time, sim_duration).insert(e));
            assert(events.spec_events().to_multiset().add(seals_from(seal_time + block_time, block_time, sim_duration))
                =~= before.to_multiset().add(seals_from(seal_time as int, block_time, sim_duration)));
        }
        seal_time = seal_time + block_time;
    }
}

proof fn lemma_insert_multiset<A>(s: Seq<A>, pos: int, e: A)
    requires
        0 <= pos <= s.len(),
    ensures
        s.insert(pos, e).to_multiset() == s.to_multiset().insert(e),
{
    let t = s.insert(pos, e);
    s.insert_ensures(pos, e);
    assert(t.remove(pos) =~= s);
    t.to_multiset_ensures();
    assert(t.to_multiset().count(e) > 0) by {
        assert(t[pos] == e);
        assert(t.contains(e));
    }
    assert(t.to_multiset() =~= t.to_multiset().remove(e).insert(e));
}

/// Value of an arriving transaction; zero for other events.
pub open spec fn arrival_value(e: SimEvent) -> int {
    match e {
        SimEvent::TxArrival(tx) => tx.spec_value(),
        _ => 0,
    }
}

/// Total value of the transactions arriving in a sequence of events.
pub open spec fn arrivals_value(s: Seq<TimedEvent<SimEvent>>) -> int
    decreases s.len(),
{
    if s.len() == 0 { 0 } else { arrival_value(s[0].event) + arrivals_value(s.drop_first()) }
}

/// Number of transaction arrivals in a sequence of events.
pub open spec fn arrivals_count(s: Seq<TimedEvent<SimEvent>>) -> int
    decreases s.len(),
{
    if s.len() == 0 {
        0
    } else {
        (if s[0].event is TxArrival { 1int } else { 0 }) + arrivals_count(s.drop_first())
    }
}

/// The transaction arrives in the sequence of events.
pub open spec fn arrives_in(s: Seq<TimedEvent<SimEvent>>, tx: Tx) -> bool {
    exists|i: int| 0 <= i < s.len() && #[trigger] s[i].event == SimEvent::TxArrival(tx)
}

proof fn lemma_arrivals_nonneg(s: Seq<TimedEvent<SimEvent>>)
    ensures
        arrivals_value(s) >= 0,
        arrivals_count(s) >= 0,
    decreases s.len(),
{
    if s.len() > 0 {
        lemma_arrivals_nonneg(s.drop_first());
        match s[0].event {
            SimEvent::TxArrival(tx) => {
                vstd::arithmetic::mul::lemma_mul_nonnegative(tx.priority_fee_gwei as int, tx.gas_limit as int);
            },
            _ => {},
        }
    }
}

/// What a simulation produced: the blocks with their stats, the transactions
/// left out, and how many were included.
#[derive(Debug)]
pub struct SimOutcome {
    pub blocks: Vec<Block>,
    pub block_stats: Vec<BlockSimStats>,
    pub pending_txs: Vec<Tx>,
    pub txs_included: u64,
}

/// The state of a simulation run.
pub struct SimRun {
    builder: Builder,
    clock: SimulatedClock,
    blocks: Vec<Block>,
    block_stats: Vec<BlockSimStats>,
    pending_txs: Vec<Tx>,
    txs_included: u64,
}

/// The stats recorded for a block sealed at a time after building with `stats`.
pub open spec fn block_sim_stats(b: Block, seal_time: u64, stats: IncrementalStats) -> BlockSimStats {
    BlockSimStats {
        block_number: b.number,
        seal_time,
        tx_count: b.transactions@.len() as usize,
        gas_used: b.gas_used,
        total_value: b.total_value,
        incremental_stats: stats,
    }
}

/// A transaction with this result stays pending.
pub open spec fn left_out(r: UpdateResult) -> bool {
    r is Rejected || r is Duplicate || r is InsufficientFee
}

impl SimRun {
    /// The builder.
    pub closed spec fn spec_builder(&self) -> Builder {
        self.builder
    }

    /// Simulated time, in nanoseconds.
    pub closed spec fn spec_now(&self) -> u64 {
        self.clock.current
    }

    /// The blocks sealed so far.
    pub closed spec fn spec_blocks(&self) -> Seq<Block> {
        self.blocks@
    }

    /// The stats of the blocks sealed so far.
    pub closed spec fn spec_block_stats(&self) -> Seq<BlockSimStats> {
        self.block_stats@
    }

    /// The transactions left out so far.
    pub closed spec fn spec_pending(&self) -> Seq<Tx> {
        self.pending_txs@
    }

    /// How many transactions the sealed blocks hold.
    pub closed spec fn spec_included(&self) -> u64 {
        self.txs_included
    }

    /// A run at time zero that has sealed nothing yet, with a fresh builder for
    /// `gas_limit` starting at block `start`.
    pub open spec fn fresh(&self, gas_limit: u64, start: u64) -> bool {
        &&& self.spec_builder().wf()
        &&& self.spec_builder().spec_gas_limit() == gas_limit
        &&& self.spec_builder().spec_next_number() == start
        &&& self.spec_builder().spec_candidate() is None
        &&& self.spec_builder().spec_stats() == IncrementalStats::zero()
        &&& self.spec_builder().spec_base_fee() == 0
        &&& self.spec_now() == 0
        &&& self.spec_blocks() == Seq::<Block>::empty()
        &&& self.spec_block_stats() == Seq::<BlockSimStats>::empty()
        &&& self.spec_pending() == Seq::<Tx>::empty()
        &&& self.spec_included() == 0
    }

    /// A run at time zero building from `start_block`.
    pub fn new(block_gas_limit: u64, start_block: u64) -> (r: Self)
        ensures
            r.fresh(block_gas_limit, start_block),
            r.spec_builder().wf(),
            r.spec_builder().spec_gas_limit() == block_gas_limit,
            r.spec_builder().spec_next_number() == start_block,
            r.spec_builder().spec_candidate() is None,
            r.spec_builder().spec_stats() == IncrementalStats::zero(),
            r.spec_builder().spec_base_fee() == 0,
            r.spec_now() == 0,
            r.spec_blocks() == Seq::<Block>::empty(),
            r.spec_block_stats() == Seq::<BlockSimStats>::empty(),
            r.spec_pending() == Seq::<Tx>::empty(),
            r.spec_included() == 0,
    {
        SimRun {
            builder: Builder::with_start_block(block_gas_limit, start_block),
            clock: SimulatedClock::new(),
            blocks: Vec::new(),
            block_stats: Vec::new(),
            pending_txs: Vec::new(),
            txs_included: 0,
        }
    }

    /// Handling the event overflows no counter, block number or total.
    pub open spec fn can_handle(&self, e: SimEvent) -> bool {
        match e {
            SimEvent::TxArrival(tx) => self.spec_builder().can_process(tx),
            _ => self.spec_builder().spec_candidate() matches Some(b) ==> {
                &&& self.spec_builder().spec_next_number() < u64::MAX
                &&& self.spec_included() + b.transactions@.len() <= u64::MAX
            },
        }
    }

    /// `next` is this run after handling `e`, with `go_on` the answer: the clock
    /// moves to the event's time (never back); an arriving transaction is
    /// processed, and stays pending when it was not taken into the candidate; a
    /// seal, or the end, seals the candidate (if any) and records its stats.
    pub open spec fn handled(&self, next: SimRun, e: TimedEvent<SimEvent>, go_on: bool) -> bool {
        &&& next.spec_builder().wf()
        &&& next.spec_now() == if e.time > self.spec_now() { e.time } else { self.spec_now() }
        &&& go_on == !(e.event is End)
        &&& match e.event {
            SimEvent::TxArrival(tx) => {
                &&& exists|r: UpdateResult| #[trigger] self.spec_builder().processed(next.spec_builder(), tx, r)
                    && next.spec_pending() == if left_out(r) {
                        self.spec_pending().push(tx)
                    } else {
                        self.spec_pending()
                    }
                &&& next.spec_blocks() == self.spec_blocks()
                &&& next.spec_block_stats() == self.spec_block_stats()
                &&& next.spec_included() == self.spec_included()
            },
            _ => {
                &&& self.spec_builder().sealed(next.spec_builder(), self.spec_builder().spec_candidate())
                &&& next.spec_pending() == self.spec_pending()
                &&& self.spec_builder().spec_candidate() matches Some(b) ==> {
                    &&& b.transactions@.len() <= usize::MAX
                    &&& next.spec_blocks() == self.spec_blocks().push(b)
                    &&& next.spec_block_stats() == self.spec_block_stats().push(
                            block_sim_stats(b, next.spec_now(), self.spec_builder().spec_stats()))
                    &&& next.spec_included() == self.spec_included() + b.transactions@.len()
                }
                &&& self.spec_builder().spec_candidate() is None ==> {
                    &&& next.spec_blocks() == self.spec_blocks()
                    &&& next.spec_block_stats() == self.spec_block_stats()
                    &&& next.spec_included() == self.spec_included()
                }
            },
        }
    }

    /// Handle one event (see `handled`). Returns whether the run goes on (not
    /// after the end).
    pub fn handle(&mut self, e: TimedEvent<SimEvent>) -> (go_on: bool)
        requires
            old(self).spec_builder().wf(),
            old(self).can_handle(e.event),
        ensures
            old(self).handled(*final(self), e, go_on),
    {
        let now = self.clock.now();
        self.clock.advance(e.time.saturating_sub(now));
        match e.event {
            SimEvent::TxArrival(tx) => {
                let ghost before = self.builder;
                let result = self.builder.process_tx(tx);
                match result {
                    UpdateResult::Rejected | UpdateResult::Duplicate | UpdateResult::InsufficientFee => {
                        self.pending_txs.push(tx);
                    },
                    _ => {},
                }
                proof {
                    assert(before.processed(self.builder, tx, result));
                    assert(before == old(self).spec_builder());
                    assert(self.spec_pending() == if left_out(result) { old(self).spec_pending().push(tx) } else { old(self).spec_pending() });
                    assert(self.spec_blocks() == old(self).spec_blocks());
                    assert(self.spec_block_stats() == old(self).spec_block_stats());
                    assert(self.spec_included() == old(self).spec_included());
                    assert(self.spec_builder().wf());
                    assert(self.spec_now() == if e.time > old(self).spec_now() { e.time } else { old(self).spec_now() });
                    assert(old(self).handled(*self, e, true));
                }
                true
            },
            SimEvent::BlockSeal => {
                self.seal_now();
                proof {
                    assert(old(self).handled(*self, e, true));
                }
                true
            },
            SimEvent::End => {
                self.seal_now();
                proof {
                    assert(old(self).handled(*self, e, false));
                }
                false
            },
        }
    }

    fn seal_now(&mut self)
        requires
            old(self).spec_builder().wf(),
            old(self).spec_builder().spec_candidate() matches Some(b) ==> {
                &&& old(self).spec_builder().spec_next_number() < u64::MAX
                &&& old(self).spec_included() + b.transactions@.len() <= u64::MAX
            },
        ensures
            final(self).spec_builder().wf(),
            final(self).spec_now() == old(self).spec_now(),
            old(self).spec_builder().sealed(final(self).spec_builder(), old(self).spec_builder().spec_candidate()),
            final(self).spec_pending() == old(self).spec_pending(),
            old(self).spec_builder().spec_candidate() matches Some(b) ==> {
                &&& b.transactions@.len() <= usize::MAX
                &&& final(self).spec_blocks() == old(self).spec_blocks().push(b)
                &&& final(self).spec_block_stats() == old(self).spec_block_stats().push(
                        block_sim_stats(b, old(self).spec_now(), old(self).spec_builder().spec_stats()))
                &&& final(self).spec_included() == old(self).spec_included() + b.transactions@.len()
            },
            old(self).spec_builder().spec_candidate() is None ==> {
                &&& final(self).spec_blocks() == old(self).spec_blocks()
                &&& final(self).spec_block_stats() == old(self).spec_block_stats()
                &&& final(self).spec_included() == old(self).spec_included()
            },
    {
        let stats = *self.builder.stats();
        match self.builder.seal() {
            Some(block) => {
                let entry = BlockSimStats {
                    block_number: block.number,
                    seal_time: self.clock.now(),
                    tx_count: block.tx_count(),
                    gas_used: block.gas_used,
                    total_value: block.total_value,
                    incremental_stats: stats,
                };
                self.txs_included = self.txs_included + block.tx_count() as u64;
                self.blocks.push(block);
                self.block_stats.push(entry);
            },
            None => {},
        }
    }
}

/// The blocks are numbered from `start` on, each consistent and within the gas
/// limit with distinct ids, and every transaction they hold arrives in `events`.
pub open spec fn blocks_ok(blocks: Seq<Block>, start: u64, gas_limit: u64, events: Seq<TimedEvent<SimEvent>>) -> bool {
    &&& forall|i: int| #![trigger blocks[i]] 0 <= i < blocks.len() ==> {
        &&& blocks[i].wf()
        &&& blocks[i].number == start + i
        &&& blocks[i].gas_limit == gas_limit
        &&& ids_distinct(blocks[i].transactions@)
    }
    &&& forall|i: int, j: int| 0 <= i < blocks.len() && 0 <= j < blocks[i].transactions@.len() ==>
        arrives_in(events, #[trigger] blocks[i].transactions@[j])
}

/// Each block's stats name the block, its size, gas and value.
pub open spec fn stats_match(blocks: Seq<Block>, stats: Seq<BlockSimStats>) -> bool {
    &&& stats.len() == blocks.len()
    &&& forall|i: int| #![trigger stats[i]] 0 <= i < stats.len() ==> {
        &&& stats[i].block_number == blocks[i].number
        &&& stats[i].tx_count == blocks[i].transactions@.len()
        &&& stats[i].gas_used == blocks[i].gas_used
        &&& stats[i].total_value == blocks[i].total_value
    }
}

/// A run goes on after any event but the end.
pub open spec fn goes_on(e: SimEvent) -> bool {
    !(e is End)
}

/// `tr` is the run of a simulation over `events`: it starts fresh, each state
/// is the one before it after handling the next event, no event before the last
/// handled one is the end, and the run stops at the end event or when the events
/// run out.
pub open spec fn sim_trace(tr: Seq<SimRun>, events: Seq<TimedEvent<SimEvent>>, gas_limit: u64, start: u64) -> bool {
    &&& 1 <= tr.len() <= events.len() + 1
    &&& tr[0].fresh(gas_limit, start)
    &&& forall|i: int| 0 <= i < tr.len() - 1 ==>
        #[trigger] tr[i].handled(tr[i + 1], events[i], goes_on(events[i].event))
    &&& forall|i: int| 0 <= i < tr.len() - 2 ==> #[trigger] goes_on(events[i].event)
    &&& tr.len() - 1 == events.len() || (tr.len() >= 2 && events[tr.len() - 2].event is End)
}

/// What a finished run hands out: its blocks and their stats, the pending
/// transactions followed by those left in the candidate, and the included count.
pub open spec fn outcome_of(r: SimRun, o: SimOutcome) -> bool {
    &&& o.blocks@ == r.spec_blocks()
    &&& o.block_stats@ == r.spec_block_stats()
    &&& o.pending_txs@ == r.spec_pending() + r.spec_builder().cand_txs()
    &&& o.txs_included == r.spec_included()
}

/// Run a simulation over a queue of events: events are handled earliest first
/// until the end event or the queue runs dry; the transactions left in the
/// candidate at the end join the pending ones. The outcome is that of the run
/// `sim_trace` describes. Beyond that, the blocks are numbered from
/// `start_block` on, each consistent, within the gas limit and with distinct
/// ids; the stats match the blocks; the included count is the number of
/// transactions in the blocks; and every transaction in a block or pending
/// arrived in the queue.
pub fn simulate(block_gas_limit: u64, start_block: u64, events: EventQueue<SimEvent>) -> (o: SimOutcome)
    requires
        events.wf(),
        arrivals_value(events.spec_events()) <= u64::MAX,
        start_block + arrivals_count(events.spec_events()) + 1 <= u64::MAX,
    ensures
        blocks_ok(o.blocks@, start_block, block_gas_limit, events.spec_events()),
        stats_match(o.blocks@, o.block_stats@),
        o.blocks@.len() <= arrivals_count(events.spec_events()),
        o.txs_included == sum_block_txs(o.blocks@),
        o.txs_included <= arrivals_count(events.spec_events()),
        forall|k: int| 0 <= k < o.pending_txs@.len() ==> arrives_in(events.spec_events(), #[trigger] o.pending_txs@[k]),
        exists|tr: Seq<SimRun>| #[trigger] sim_trace(tr, events.spec_events(), block_gas_limit, start_block)
            && outcome_of(tr.last(), o),
{
    let ghost init = events.spec_events();
    let ghost n = arrivals_count(init);
    let mut q = events;
    let mut run = SimRun::new(block_gas_limit, start_block);
    let ghost mut k: int = 0;
    let ghost mut tr: Seq<SimRun> = seq![run];
    proof {
        assert(init.skip(0) =~= init);
        lemma_arrivals_nonneg(init);
        assert(run.spec_builder().cand_txs() =~= Seq::<Tx>::empty());
    }
    loop
        invariant_except_break
            k > 0 ==> goes_on(init[k - 1].event),
        invariant
            q.wf(),
            0 <= k <= init.len(),
            q.spec_events() == init.skip(k),
            arrivals_value(init) <= u64::MAX,
            start_block + n + 1 <= u64::MAX,
            n == arrivals_count(init),
            arrivals_count(init.skip(k)) <= n,
            run.spec_builder().wf(),
            run.spec_builder().spec_gas_limit() == block_gas_limit,
            run.spec_builder().spec_base_fee() == 0,
            run.spec_builder().spec_next_number() == start_block + run.spec_blocks().len(),
            run.spec_builder().cand_value() + arrivals_value(q.spec_events()) <= u64::MAX,
            run.spec_builder().spec_stats().txs_received <= n - arrivals_count(q.spec_events()),
            run.spec_builder().spec_stats().multi_replacements + run.spec_builder().cand_txs().len()
                <= run.spec_builder().spec_stats().txs_received,
            run.spec_included() + run.spec_builder().cand_txs().len() <= n - arrivals_count(q.spec_events()),
            run.spec_blocks().len() + (if run.spec_builder().spec_candidate() is Some { 1int } else { 0 })
                <= n - arrivals_count(q.spec_events()),
            run.spec_included() == sum_block_txs(run.spec_blocks()),
            blocks_ok(run.spec_blocks(), start_block, block_gas_limit, init),
            stats_match(run.spec_blocks(), run.spec_block_stats()),
            forall|j: int| 0 <= j < run.spec_builder().cand_txs().len() ==>
                arrives_in(init, #[trigger] run.spec_builder().cand_txs()[j]),
            forall|j: int| 0 <= j < run.spec_pending().len() ==> arrives_in(init, #[trigger] run.spec_pending()[j]),
            tr.len() == k + 1,
            tr.last() == run,
            tr[0].fresh(block_gas_limit, start_block),
            forall|i: int| 0 <= i < tr.len() - 1 ==>
                #[trigger] tr[i].handled(tr[i + 1], init[i], goes_on(init[i].event)),
            forall|i: int| 0 <= i < k - 1 ==> #[trigger] goes_on(init[i].event),
        ensures
            k == init.len() || (k >= 1 && !goes_on(init[k - 1].event)),
        decreases init.len() - k,
    {
        let ghost rem = q.spec_events();
        match q.pop() {
            Some(e) => {
                proof {
                    assert(e == init[k]);
                    assert(rem.drop_first() =~= init.skip(k + 1));
                    lemma_arrivals_nonneg(rem.drop_first());
                }
                let ghost before = run;
                let go_on = run.handle(e);
                proof {
                    let ghost old_tr = tr;
                    tr = tr.push(run);
                    assert forall|i: int| 0 <= i < tr.len() - 1 implies
                        #[trigger] tr[i].handled(tr[i + 1], init[i], goes_on(init[i].event)) by {
                        if i < k {
                            assert(tr[i] == old_tr[i] && tr[i + 1] == old_tr[i + 1]);
                        } else {
                            assert(tr[i] == before && tr[i + 1] == run);
                        }
                    }
                    k = k + 1;
                    if !(e.event is TxArrival) {
                        if before.spec_builder().spec_candidate() is Some {
                            let bl = before.spec_blocks();
                            assert(run.spec_blocks().drop_last() =~= bl);
                            let st = run.spec_block_stats();
                            assert forall|i: int| #![trigger st[i]] 0 <= i < st.len() implies {
                                &&& st[i].block_number == run.spec_blocks()[i].number
                                &&& st[i].tx_count == run.spec_blocks()[i].transactions@.len()
                                &&& st[i].gas_used == run.spec_blocks()[i].gas_used
                                &&& st[i].total_value == run.spec_blocks()[i].total_value
                            } by {
                                if i < bl.len() {
                                    assert(st[i] == before.spec_block_stats()[i]);
                                    assert(run.spec_blocks()[i] == bl[i]);
                                }
                            }
                        }
                    }
                }
                if !go_on {
                    break;
                }
            },
            None => {
                break;
            },
        }
    }
    proof {
        lemma_arrivals_nonneg(q.spec_events());
    }
    let o = run.finish();
    proof {
        assert(sim_trace(tr, init, block_gas_limit, start_block));
    }
    o
}

impl SimRun {
    /// End the run: the candidate's transactions join the pending ones.
    pub fn finish(self) -> (o: SimOutcome)
        ensures
            o.blocks@ == self.spec_blocks(),
            o.block_stats@ == self.spec_block_stats(),
            o.pending_txs@ == self.spec_pending() + self.spec_builder().cand_txs(),
            o.txs_included == self.spec_included(),
    {
        let mut pending = self.pending_txs;
        let ghost p0 = pending@;
        match self.builder.candidate() {
            Some(c) => {
                let n = c.transactions.len();
                let mut i: usize = 0;
                while i < n
                    invariant
                        n == c.transactions@.len(),
                        i <= n,
                        pending@ == p0 + c.transactions@.take(i as int),
                    decreases n - i,
                {
                    pending.push(c.transactions[i]);
                    proof {
                        assert(c.transactions@.take(i as int + 1) =~= c.transactions@.take(i as int).push(c.transactions@[i as int]));
                        assert(pending@ =~= p0 + c.transactions@.take(i as int + 1));
                    }
                    i = i + 1;
                }
                proof { assert(c.transactions@.take(n as int) =~= c.transactions@); }
            },
            None => {
                proof { assert(pending@ =~= p0 + Seq::<Tx>::empty()); }
            },
        }
        SimOutcome {
            blocks: self.blocks,
            block_stats: self.block_stats,
            pending_txs: pending,
            txs_included: self.txs_included,
        }
    }
}

proof fn lemma_arrivals_suffix(s: Seq<TimedEvent<SimEvent>>, i: int)
    requires
        0 <= i <= s.len(),
    ensures
        0 <= arrivals_value(s.skip(i)) <= arrivals_value(s),
        0 <= arrivals_count(s.skip(i)) <= arrivals_count(s),
    decreases i,
{
    if i == 0 {
        assert(s.skip(0) =~= s);
        lemma_arrivals_nonneg(s);
    } else {
        lemma_arrivals_suffix(s, i - 1);
        assert(s.skip(i - 1).drop_first() =~= s.skip(i));
        lemma_arrivals_nonneg(s.skip(i));
        match s[i - 1].event {
            SimEvent::TxArrival(tx) => {
                vstd::arithmetic::mul::lemma_mul_nonnegative(tx.priority_fee_gwei as int, tx.gas_limit as int);
            },
            _ => {},
        }
    }
}

/// Whether the transactions arriving in the queue are worth at most `u64::MAX`
/// in total, and are few enough that block numbers from `start_block` cannot
/// overflow: what `simulate` needs.
pub fn arrival_total_ok(events: &EventQueue<SimEvent>, start_block: u64) -> (ok: bool)
    ensures
        ok == (arrivals_value(events.spec_events()) <= u64::MAX
            && start_block + arrivals_count(events.spec_events()) + 1 <= u64::MAX),
{
    let ev = events.events();
    let ghost s = ev@;
    let n = ev.len();
    let mut value: u128 = 0;
    let mut count: u64 = 0;
    let mut i: usize = n;
    proof {
        assert(s.skip(n as int) =~= Seq::<TimedEvent<SimEvent>>::empty());
    }
    while i > 0
        invariant
            s == ev@,
            s == events.spec_events(),
            n == s.len(),
            i <= n,
            value == arrivals_value(s.skip(i as int)),
            value <= u64::MAX,
            count == arrivals_count(s.skip(i as int)),
            count <= n - i,
        decreases i,
    {
        i = i - 1;
        proof {
            assert(s.skip(i as int).drop_first() =~= s.skip(i as int + 1));
            assert(s.skip(i as int)[0] == s[i as int]);
        }
        match ev[i].event {
            SimEvent::TxArrival(tx) => {
                let g = tx.gas_limit as u128;
                let f = tx.priority_fee_gwei as u128;
                proof {
                    vstd::arithmetic::mul::lemma_mul_upper_bound(g as int, u64::MAX as int, f as int, u64::MAX as int);
                    assert(u64::MAX as int * u64::MAX as int <= u128::MAX - u64::MAX) by (nonlinear_arith);
                    assert(f * g == g * f) by (nonlinear_arith);
                }
                value = value + g * f;
                count = count + 1;
                proof {
                    assert(arrivals_value(s.skip(i as int)) == arrival_value(s[i as int].event) + arrivals_value(s.skip(i as int + 1)));
                    assert(value == arrivals_value(s.skip(i as int)));
                }
                if value > u64::MAX as u128 {
                    proof {
                        lemma_arrivals_suffix(s, i as int);
                    }
                    return false;
                }
            },
            _ => {},
        }
    }
    proof {
        assert(s.skip(0) =~= s);
    }
    (start_block as u128) + (count as u128) + 1 <= u64::MAX as u128
}

} // verus!
