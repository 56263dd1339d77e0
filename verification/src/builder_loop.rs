use vstd::prelude::*;
use std::time::Instant;
use crate::block::Block;
use crate::builder::{Builder, IncrementalStats, UpdateResult};
use crate::seqs::{sum_value, tx_sum, value_fn, ids_distinct, lemma_sum_nonneg};
use crate::tx::{Tx, instant_now, nanos_since};

verus! {

/// Commands that can be sent to the builder loop.
#[derive(Debug, Clone, Copy)]
pub enum BuilderCommand {
    /// Seal the current block immediately
    SealNow,
    /// Shut the builder loop down
    Shutdown,
}

/// Events emitted by the builder loop.
#[derive(Debug)]
pub enum BuilderEvent {
    /// A transaction was processed
    TxProcessed {
        tx_id: u64,
        result: UpdateResult,
        block_value: u64,
        block_gas: u64,
    },
    /// A block was sealed; `build_duration` is in nanoseconds
    BlockSealed {
        block: Block,
        stats: IncrementalStats,
        build_duration: u64,
    },
    /// The builder loop has shut down
    Shutdown,
}

/// Configuration for the builder loop.
#[derive(Debug, Clone, Copy)]
pub struct BuilderLoopConfig {
    /// Gas limit for blocks
    pub block_gas_limit: u64,
    /// How often to seal blocks, in nanoseconds
    pub block_time: u64,
    /// Starting block number
    pub start_block: u64,
}

impl Default for BuilderLoopConfig {
    /// A 30M gas limit, twelve-second blocks, starting at block 1.
    fn default() -> (c: Self)
        ensures
            c.block_gas_limit == 30_000_000,
            c.block_time == 12_000_000_000,
            c.start_block == 1,
    {
        BuilderLoopConfig { block_gas_limit: 30_000_000, block_time: 12_000_000_000, start_block: 1 }
    }
}

/// Totals of a builder loop run.
#[derive(Debug, Clone, Copy)]
pub struct LoopStats {
    pub blocks_built: u64,
    pub total_txs_received: u64,
    pub total_txs_included: u64,
    pub total_value_extracted: u64,
    pub total_gas_used: u64,
    /// Length of the run, in nanoseconds
    pub run_duration: u64,
}

impl Default for LoopStats {
    fn default() -> (s: Self)
        ensures
            s == LoopStats::zero(),
    {
        LoopStats {
            blocks_built: 0,
            total_txs_received: 0,
            total_txs_included: 0,
            total_value_extracted: 0,
            total_gas_used: 0,
            run_duration: 0,
        }
    }
}

impl LoopStats {
    /// All totals at zero.
    pub open spec fn zero() -> LoopStats {
        LoopStats {
            blocks_built: 0,
            total_txs_received: 0,
            total_txs_included: 0,
            total_value_extracted: 0,
            total_gas_used: 0,
            run_duration: 0,
        }
    }

    /// Counting a sealed block overflows no total.
    pub open spec fn can_count(self, b: Block) -> bool {
        &&& self.blocks_built < u64::MAX
        &&& self.total_txs_included + b.transactions@.len() <= u64::MAX
        &&& self.total_value_extracted + b.total_value <= u64::MAX
        &&& self.total_gas_used + b.gas_used <= u64::MAX
    }

    /// The totals after counting a sealed block.
    pub open spec fn counted(self, b: Block) -> LoopStats {
        LoopStats {
            blocks_built: (self.blocks_built + 1) as u64,
            total_txs_included: (self.total_txs_included + b.transactions@.len()) as u64,
            total_value_extracted: (self.total_value_extracted + b.total_value) as u64,
            total_gas_used: (self.total_gas_used + b.gas_used) as u64,
            ..self
        }
    }

    /// Count a sealed block.
    fn count_block(&mut self, b: &Block)
        requires
            old(self).can_count(*b),
        ensures
            *final(self) == old(self).counted(*b),
    {
        self.blocks_built = self.blocks_built + 1;
        self.total_txs_included = self.total_txs_included + b.transactions.len() as u64;
        self.total_value_extracted = self.total_value_extracted + b.total_value;
        self.total_gas_used = self.total_gas_used + b.gas_used;
    }

    /// Whether counting a sealed block overflows no total.
    fn can_count_exec(&self, b: &Block) -> (r: bool)
        ensures
            r == self.can_count(*b),
    {
        self.blocks_built < u64::MAX
            && (self.total_txs_included as u128) + (b.transactions.len() as u128) <= u64::MAX as u128
            && (self.total_value_extracted as u128) + (b.total_value as u128) <= u64::MAX as u128
            && (self.total_gas_used as u128) + (b.gas_used as u128) <= u64::MAX as u128
    }
}

/// Sealing the builder's candidate overflows neither the block number nor a total.
pub open spec fn can_seal(builder: Builder, stats: LoopStats) -> bool {
    builder.spec_candidate() matches Some(b) ==> builder.spec_next_number() < u64::MAX && stats.can_count(b)
}

/// Whether sealing the builder's candidate overflows neither the block number nor a total.
fn can_seal_exec(builder: &Builder, stats: &LoopStats) -> (r: bool)
    ensures
        r == can_seal(*builder, *stats),
{
    match builder.candidate() {
        Some(b) => builder.next_block_number() < u64::MAX && stats.can_count_exec(b),
        None => true,
    }
}

/// What the builder loop is told next.
#[derive(Debug)]
pub enum LoopInput {
    /// The block time has run out
    BlockTimeUp,
    /// A transaction arrived
    Tx(Tx),
    /// The transaction channel closed
    TxChannelClosed,
    /// A command arrived
    Command(BuilderCommand),
    /// The command channel closed
    CommandChannelClosed,
    /// Nothing arrived before the timeout
    Timeout,
}

/// What the builder loop does after an input: the events to emit, whether the
/// block timer restarts, and whether the loop stops.
#[derive(Debug)]
pub struct LoopStep {
    pub events: Vec<BuilderEvent>,
    pub restart_block_timer: bool,
    pub stop: bool,
}

/// The decisions of the builder loop: it processes arriving transactions and
/// seals blocks when the block time runs out or on command.
#[derive(Debug)]
pub struct BuilderLoop {
    builder: Builder,
    stats: LoopStats,
}

impl BuilderLoop {
    /// The builder.
    pub closed spec fn spec_builder(&self) -> Builder {
        self.builder
    }

    /// The totals so far.
    pub closed spec fn spec_stats(&self) -> LoopStats {
        self.stats
    }

    /// The builder is consistent.
    pub open spec fn wf(&self) -> bool {
        self.spec_builder().wf()
    }

    /// A loop building from `config.start_block`, with zero totals.
    pub fn new(config: &BuilderLoopConfig) -> (l: Self)
        ensures
            l.wf(),
            l.spec_builder().spec_gas_limit() == config.block_gas_limit,
            l.spec_builder().spec_next_number() == config.start_block,
            l.spec_builder().spec_candidate() is None,
            l.spec_builder().spec_stats() == IncrementalStats::zero(),
            l.spec_stats() == LoopStats::zero(),
    {
        BuilderLoop {
            builder: Builder::with_start_block(config.block_gas_limit, config.start_block),
            stats: LoopStats::default(),
        }
    }

    /// Handling the input overflows no counter, block number or total.
    pub open spec fn can_step(&self, input: LoopInput) -> bool {
        match input {
            LoopInput::Tx(tx) => self.spec_builder().can_process(tx)
                && self.spec_stats().total_txs_received < u64::MAX,
            LoopInput::BlockTimeUp | LoopInput::TxChannelClosed | LoopInput::Command(_) =>
                can_seal(self.spec_builder(), self.spec_stats()),
            _ => true,
        }
    }

    /// Whether handling the input overflows no counter, block number or total.
    pub fn check(&self, input: &LoopInput) -> (r: bool)
        requires
            self.wf(),
        ensures
            r == self.can_step(*input),
    {
        match input {
            LoopInput::Tx(tx) => self.builder.can_process_tx(tx) && self.stats.total_txs_received < u64::MAX,
            LoopInput::BlockTimeUp | LoopInput::TxChannelClosed | LoopInput::Command(_) =>
                can_seal_exec(&self.builder, &self.stats),
            _ => true,
        }
    }

    /// Seal the candidate, if any, and count it; the event carries the builder's
    /// counters after sealing.
    fn seal_into(&mut self, build_duration: u64, events: &mut Vec<BuilderEvent>)
        requires
            old(self).wf(),
            can_seal(old(self).spec_builder(), old(self).spec_stats()),
        ensures
            final(self).wf(),
            old(self).spec_builder().sealed(final(self).spec_builder(), old(self).spec_builder().spec_candidate()),
            old(self).spec_builder().spec_candidate() matches Some(b) ==> {
                &&& final(self).spec_stats() == old(self).spec_stats().counted(b)
                &&& final(events)@ == old(events)@.push(BuilderEvent::BlockSealed {
                        block: b,
                        stats: IncrementalStats::zero(),
                        build_duration,
                    })
            },
            old(self).spec_builder().spec_candidate() is None ==> {
                &&& final(self).spec_stats() == old(self).spec_stats()
                &&& final(events)@ == old(events)@
            },
    {
        match self.builder.seal() {
            Some(block) => {
                self.stats.count_block(&block);
                let stats = *self.builder.stats();
                events.push(BuilderEvent::BlockSealed { block, stats, build_duration });
            },
            None => {},
        }
    }

    /// Handle one input. The block time running out seals the candidate (if
    /// any) and restarts the block timer; a transaction is processed and, when
    /// there is a candidate, reported; the transaction channel closing seals and
    /// stops; `SealNow` seals and restarts the timer; `Shutdown` seals, reports
    /// the shutdown and stops; anything else changes nothing.
    pub fn step(&mut self, input: LoopInput, build_duration: u64) -> (s: LoopStep)
        requires
            old(self).wf(),
            old(self).can_step(input),
        ensures
            final(self).wf(),
            match input {
                LoopInput::Tx(tx) => {
                    &&& exists|r: UpdateResult| #[trigger] old(self).spec_builder().processed(final(self).spec_builder(), tx, r)
                        && (match final(self).spec_builder().spec_candidate() {
                            Some(c) => s.events@ == seq![BuilderEvent::TxProcessed {
                                tx_id: tx.id,
                                result: r,
                                block_value: c.total_value,
                                block_gas: c.gas_used,
                            }],
                            None => s.events@ == Seq::<BuilderEvent>::empty(),
                        })
                    &&& final(self).spec_stats() == LoopStats {
                            total_txs_received: (old(self).spec_stats().total_txs_received + 1) as u64,
                            ..old(self).spec_stats()
                        }
                    &&& !s.restart_block_timer
                    &&& !s.stop
                },
                LoopInput::BlockTimeUp | LoopInput::TxChannelClosed | LoopInput::Command(_) => {
                    &&& old(self).spec_builder().sealed(final(self).spec_builder(), old(self).spec_builder().spec_candidate())
                    &&& s.restart_block_timer == (input is BlockTimeUp || input == LoopInput::Command(BuilderCommand::SealNow))
                    &&& s.stop == (input is TxChannelClosed || input == LoopInput::Command(BuilderCommand::Shutdown))
                    &&& ({
                        let sealed_event = match old(self).spec_builder().spec_candidate() {
                            Some(b) => seq![BuilderEvent::BlockSealed { block: b, stats: IncrementalStats::zero(), build_duration }],
                            None => Seq::<BuilderEvent>::empty(),
                        };
                        &&& final(self).spec_stats() == match old(self).spec_builder().spec_candidate() {
                            Some(b) => old(self).spec_stats().counted(b),
                            None => old(self).spec_stats(),
                        }
                        &&& s.events@ == if input == LoopInput::Command(BuilderCommand::Shutdown) {
                            sealed_event.push(BuilderEvent::Shutdown)
                        } else {
                            sealed_event
                        }
                    })
                },
                _ => {
                    &&& final(self).spec_builder() == old(self).spec_builder()
                    &&& final(self).spec_stats() == old(self).spec_stats()
                    &&& s.events@ == Seq::<BuilderEvent>::empty()
                    &&& !s.restart_block_timer
                    &&& !s.stop
                },
            },
    {
        let mut events: Vec<BuilderEvent> = Vec::new();
        match input {
            LoopInput::Tx(tx) => {
                let tx_id = tx.id;
                let result = self.builder.process_tx(tx);
                self.stats.total_txs_received = self.stats.total_txs_received + 1;
                match self.builder.candidate() {
                    Some(c) => {
                        events.push(BuilderEvent::TxProcessed {
                            tx_id,
                            result,
                            block_value: c.total_value,
                            block_gas: c.gas_used,
                        });
                    },
                    None => {},
                }
                LoopStep { events, restart_block_timer: false, stop: false }
            },
            LoopInput::BlockTimeUp => {
                self.seal_into(build_duration, &mut events);
                LoopStep { events, restart_block_timer: true, stop: false }
            },
            LoopInput::TxChannelClosed => {
                self.seal_into(build_duration, &mut events);
                LoopStep { events, restart_block_timer: false, stop: true }
            },
            LoopInput::Command(BuilderCommand::SealNow) => {
                self.seal_into(build_duration, &mut events);
                LoopStep { events, restart_block_timer: true, stop: false }
            },
            LoopInput::Command(BuilderCommand::Shutdown) => {
                self.seal_into(build_duration, &mut events);
                events.push(BuilderEvent::Shutdown);
                LoopStep { events, restart_block_timer: false, stop: true }
            },
            _ => LoopStep { events, restart_block_timer: false, stop: false },
        }
    }

    /// End the run: the totals, with the run's length in nanoseconds.
    pub fn finish(self, run_duration: u64) -> (s: LoopStats)
        ensures
            s == (LoopStats { run_duration, ..self.spec_stats() }),
    {
        let mut s = self.stats;
        s.run_duration = run_duration;
        s
    }
}

/// The sum of `f` over a stretch of a sequence is at most its sum over the whole.
proof fn lemma_stretch_le(s: Seq<Tx>, a: int, b: int, f: spec_fn(Tx) -> int)
    requires
        0 <= a <= b <= s.len(),
        forall|t: Tx| #[trigger] f(t) >= 0,
    ensures
        tx_sum(s.subrange(a, b), f) <= tx_sum(s, f),
{
    assert(s =~= s.take(a) + (s.subrange(a, b) + s.skip(b)));
    crate::seqs::lemma_sum_concat(s.take(a), s.subrange(a, b) + s.skip(b), f);
    crate::seqs::lemma_sum_concat(s.subrange(a, b), s.skip(b), f);
    lemma_sum_nonneg(s.take(a), f);
    lemma_sum_nonneg(s.skip(b), f);
}

/// The blocks after sealing with `out` handed out: it joins them if there is one.
pub open spec fn sealed_into(blocks: Seq<Block>, out: Option<Block>) -> Seq<Block> {
    match out {
        Some(b) => blocks.push(b),
        None => blocks,
    }
}

/// One transaction of a batch build, from builder `b` with `blocks` sealed to
/// `b2` with `blocks2`: with `seal`, the candidate is first sealed and joins the
/// blocks (if there is one); then the transaction is processed.
pub open spec fn batch_step(b: Builder, blocks: Seq<Block>, seal: bool, tx: Tx, b2: Builder, blocks2: Seq<Block>) -> bool {
    if seal {
        &&& blocks2 == sealed_into(blocks, b.spec_candidate())
        &&& exists|mid: Builder, r: UpdateResult| #[trigger] b.sealed(mid, b.spec_candidate())
            && #[trigger] mid.processed(b2, tx, r)
    } else {
        &&& blocks2 == blocks
        &&& exists|r: UpdateResult| #[trigger] b.processed(b2, tx, r)
    }
}

/// `tr` is a batch build of `txs` for `gas_limit` that seals before the
/// transactions where `seals` says so: it starts from a fresh builder at block 1
/// with no blocks, and each state follows from the one before by `batch_step`.
pub open spec fn batch_trace(tr: Seq<(Builder, Seq<Block>)>, txs: Seq<Tx>, seals: Seq<bool>, gas_limit: u64) -> bool {
    &&& seals.len() == txs.len()
    &&& tr.len() == txs.len() + 1
    &&& tr[0].0.wf()
    &&& tr[0].0.spec_gas_limit() == gas_limit
    &&& tr[0].0.spec_next_number() == 1
    &&& tr[0].0.spec_candidate() is None
    &&& tr[0].0.spec_stats() == IncrementalStats::zero()
    &&& tr[0].0.spec_base_fee() == 0
    &&& tr[0].1 == Seq::<Block>::empty()
    &&& forall|i: int| 0 <= i < txs.len() ==>
        #[trigger] batch_step(tr[i].0, tr[i].1, seals[i], txs[i], tr[i + 1].0, tr[i + 1].1)
}

/// The blocks a batch build hands out: those sealed along the way, then the
/// last candidate (if any).
pub open spec fn batch_result(tr: Seq<(Builder, Seq<Block>)>) -> Seq<Block> {
    sealed_into(tr.last().1, tr.last().0.spec_candidate())
}

/// The seal decisions for clock readings: seal when at least `block_time` has
/// passed since the last seal.
pub open spec fn seals_for(elapsed: Seq<u64>, block_time: u64) -> Seq<bool> {
    elapsed.map_values(|e: u64| e >= block_time)
}

/// Where the stretch of transactions holding transaction `i` starts: at the
/// last seal before a transaction up to `i`, or at the first transaction.
pub open spec fn stretch_start(seals: Seq<bool>, i: int) -> int
    decreases i,
{
    if i <= 0 {
        0
    } else if seals[i] {
        i
    } else {
        stretch_start(seals, i - 1)
    }
}

/// Between two seals, the transactions are worth no more than a `u64` holds:
/// the candidate block, which holds some of them, can then sum its value.
pub open spec fn stretches_fit(txs: Seq<Tx>, seals: Seq<bool>) -> bool {
    forall|i: int| 0 <= i < txs.len() ==> sum_value(#[trigger] txs.subrange(stretch_start(seals, i), i + 1)) <= u64::MAX
}

/// Blocks of a batch build are numbered 1, 2, ... in order, each consistent and
/// within the gas limit, hold distinct ids, and hold only transactions of the batch.
pub open spec fn batch_blocks_ok(blocks: Seq<Block>, txs: Seq<Tx>, gas_limit: u64) -> bool {
    &&& blocks.len() <= txs.len()
    &&& forall|i: int| #![trigger blocks[i]] 0 <= i < blocks.len() ==> {
        &&& blocks[i].wf()
        &&& blocks[i].number == i + 1
        &&& blocks[i].gas_limit == gas_limit
        &&& ids_distinct(blocks[i].transactions@)
    }
    &&& forall|i: int, j: int| 0 <= i < blocks.len() && 0 <= j < blocks[i].transactions@.len() ==>
        txs.contains(#[trigger] blocks[i].transactions@[j])
}

/// Seal (when `seal`) and process one transaction of a batch.
fn batch_advance(builder: &mut Builder, blocks: &mut Vec<Block>, seal: bool, tx: Tx)
    requires
        old(builder).wf(),
        seal && old(builder).spec_candidate() is Some ==> old(builder).spec_next_number() < u64::MAX
            && tx.spec_value() <= u64::MAX,
        !(seal && old(builder).spec_candidate() is Some) ==> old(builder).can_process(tx),
    ensures
        batch_step(*old(builder), old(blocks)@, seal, tx, *final(builder), final(blocks)@),
{
    if seal {
        let ghost b0 = *builder;
        match builder.seal() {
            Some(block) => {
                blocks.push(block);
            },
            None => {},
        }
        let ghost mid = *builder;
        let r = builder.process_tx(tx);
        proof {
            assert(b0.sealed(mid, b0.spec_candidate()) && mid.processed(*builder, tx, r));
        }
    } else {
        let ghost b0 = *builder;
        let r = builder.process_tx(tx);
        proof {
            assert(b0.processed(*builder, tx, r));
        }
    }
}

/// Build blocks from a batch, sealing before transaction `i` when `elapsed[i]`,
/// the time read since the last seal, is at least `block_time`, and once more
/// at the end (with `elapsed` absent, the clock is read instead).
fn batch_run(txs: &Vec<Tx>, block_gas_limit: u64, block_time: u64, elapsed: Option<&Vec<u64>>) -> (blocks: Vec<Block>)
    requires
        elapsed is None ==> sum_value(txs@) <= u64::MAX,
        txs@.len() + 2 <= u64::MAX,
        elapsed matches Some(e) ==> e@.len() == txs@.len() && stretches_fit(txs@, seals_for(e@, block_time)),
    ensures
        batch_blocks_ok(blocks@, txs@, block_gas_limit),
        exists|seals: Seq<bool>, tr: Seq<(Builder, Seq<Block>)>|
            #[trigger] batch_trace(tr, txs@, seals, block_gas_limit)
            && blocks@ == batch_result(tr)
            && (elapsed matches Some(e) ==> seals == seals_for(e@, block_time)),
{
    let mut builder = Builder::new(block_gas_limit);
    let mut blocks: Vec<Block> = Vec::new();
    let mut last_seal = instant_now();
    let n = txs.len();
    let mut i: usize = 0;
    let ghost mut since: int = 0;
    let ghost mut seals: Seq<bool> = Seq::empty();
    let ghost mut tr: Seq<(Builder, Seq<Block>)> = seq![(builder, blocks@)];
    proof {
        assert forall|t: Tx| #[trigger] value_fn()(t) >= 0 by {
            vstd::arithmetic::mul::lemma_mul_nonnegative(t.priority_fee_gwei as int, t.gas_limit as int);
        }
    }
    while i < n
        invariant
            n == txs@.len(),
            n + 2 <= u64::MAX,
            elapsed is None ==> sum_value(txs@) <= u64::MAX,
            elapsed matches Some(e) ==> e@.len() == n && stretches_fit(txs@, seals_for(e@, block_time))
                && since == stretch_start(seals_for(e@, block_time), i - 1),
            builder.spec_candidate() is None ==> since == i,
            forall|t: Tx| #[trigger] value_fn()(t) >= 0,
            i <= n,
            0 <= since <= i,
            builder.wf(),
            builder.spec_gas_limit() == block_gas_limit,
            builder.spec_base_fee() == 0,
            builder.spec_next_number() == blocks@.len() + 1,
            blocks@.len() + (if builder.spec_candidate() is Some { 1int } else { 0 }) <= i,
            builder.cand_value() <= sum_value(txs@.subrange(since, i as int)),
            builder.spec_stats().txs_received == i - since,
            builder.spec_stats().multi_replacements + builder.cand_txs().len() <= i - since,
            forall|j: int| 0 <= j < builder.cand_txs().len() ==> txs@.contains(#[trigger] builder.cand_txs()[j]),
            forall|k: int| #![trigger blocks@[k]] 0 <= k < blocks@.len() ==> {
                &&& blocks@[k].wf()
                &&& blocks@[k].number == k + 1
                &&& blocks@[k].gas_limit == block_gas_limit
                &&& ids_distinct(blocks@[k].transactions@)
            },
            forall|k: int, j: int| 0 <= k < blocks@.len() && 0 <= j < blocks@[k].transactions@.len() ==>
                txs@.contains(#[trigger] blocks@[k].transactions@[j]),
            seals.len() == i,
            tr.len() == i + 1,
            tr.last() == (builder, blocks@),
            tr[0].0.wf(),
            tr[0].0.spec_gas_limit() == block_gas_limit,
            tr[0].0.spec_next_number() == 1,
            tr[0].0.spec_candidate() is None,
            tr[0].0.spec_stats() == IncrementalStats::zero(),
            tr[0].0.spec_base_fee() == 0,
            tr[0].1 == Seq::<Block>::empty(),
            forall|k: int| 0 <= k < i ==>
                #[trigger] batch_step(tr[k].0, tr[k].1, seals[k], txs@[k], tr[k + 1].0, tr[k + 1].1),
            elapsed matches Some(e) ==> seals == seals_for(e@, block_time).take(i as int),
        decreases n - i,
    {
        let tx = txs[i];
        let due = match elapsed {
            Some(e) => e[i] >= block_time,
            None => nanos_since(&last_seal) >= block_time,
        };
        let ghost b0 = builder;
        let ghost bl0 = blocks@;
        proof {
            assert(txs@.subrange(since, i as int + 1) =~= txs@.subrange(since, i as int).push(tx));
            crate::seqs::lemma_sum_push(txs@.subrange(since, i as int), tx, value_fn());
            lemma_sum_nonneg(txs@.subrange(since, i as int), value_fn());
            assert(txs@.subrange(i as int, i as int + 1) =~= seq![tx]);
            assert(seq![tx] =~= Seq::<Tx>::empty().push(tx));
            crate::seqs::lemma_sum_push(Seq::<Tx>::empty(), tx, value_fn());
            match elapsed {
                None => {
                    lemma_stretch_le(txs@, since, i as int + 1, value_fn());
                    lemma_stretch_le(txs@, i as int, i as int + 1, value_fn());
                },
                Some(e) => {
                    let sl = seals_for(e@, block_time);
                    assert(sl[i as int] == due);
                    let st = stretch_start(sl, i as int);
                    assert(sum_value(txs@.subrange(st, i as int + 1)) <= u64::MAX);
                    if due {
                        assert(st == i);
                    } else {
                        assert(st == since);
                    }
                },
            }
        }
        batch_advance(&mut builder, &mut blocks, due, tx);
        if due {
            last_seal = instant_now();
        }
        proof {
            let ghost old_tr = tr;
            tr = tr.push((builder, blocks@));
            seals = seals.push(due);
            assert forall|k: int| 0 <= k < i + 1 implies
                #[trigger] batch_step(tr[k].0, tr[k].1, seals[k], txs@[k], tr[k + 1].0, tr[k + 1].1) by {
                if k < i {
                    assert(tr[k] == old_tr[k] && tr[k + 1] == old_tr[k + 1]);
                } else {
                    assert(tr[k] == (b0, bl0) && tr[k + 1] == (builder, blocks@));
                }
            }
            if let Some(e) = elapsed {
                assert(seals =~= seals_for(e@, block_time).take(i as int + 1));
            }
            let mid = if due {
                choose|mid: Builder, r: UpdateResult| #[trigger] b0.sealed(mid, b0.spec_candidate())
                    && #[trigger] mid.processed(builder, tx, r)
            } else {
                (b0, UpdateResult::Added)
            };
            if due {
                since = i as int;
            }
            if due && b0.spec_candidate() is Some {
                assert(txs@.subrange(since, i as int) =~= Seq::<Tx>::empty());
                assert forall|k: int, j: int| 0 <= k < blocks@.len() && 0 <= j < blocks@[k].transactions@.len() implies
                    txs@.contains(#[trigger] blocks@[k].transactions@[j]) by {
                    if k == blocks@.len() - 1 {
                        assert(blocks@[k].transactions@ == b0.cand_txs());
                    } else {
                        assert(blocks@[k] == bl0[k]);
                    }
                }
            }
            let before = mid.0;
            assert forall|j: int| 0 <= j < builder.cand_txs().len() implies txs@.contains(#[trigger] builder.cand_txs()[j]) by {
                if builder.cand_txs()[j] != tx {
                    let c = builder.cand_txs()[j];
                    assert(before.cand_txs().contains(c));
                    let q = choose|q: int| 0 <= q < before.cand_txs().len() && before.cand_txs()[q] == c;
                    assert(txs@.contains(b0.cand_txs()[q]));
                } else {
                    assert(txs@[i as int] == tx);
                }
            }
        }
        i = i + 1;
    }
    let ghost b0 = builder;
    let ghost bl0 = blocks@;
    match builder.seal() {
        Some(block) => {
            blocks.push(block);
            proof {
                assert forall|k: int, j: int| 0 <= k < blocks@.len() && 0 <= j < blocks@[k].transactions@.len() implies
                    txs@.contains(#[trigger] blocks@[k].transactions@[j]) by {
                    if k == blocks@.len() - 1 {
                        assert(blocks@[k].transactions@ == b0.cand_txs());
                    } else {
                        assert(blocks@[k] == bl0[k]);
                    }
                }
            }
        },
        None => {},
    }
    proof {
        assert(batch_trace(tr, txs@, seals, block_gas_limit));
        assert(blocks@ == batch_result(tr));
        if let Some(e) = elapsed {
            assert(seals =~= seals_for(e@, block_time));
        }
    }
    blocks
}

/// Build blocks from a batch of transactions, processing them in order and
/// sealing the candidate whenever the block time has passed since the last seal
/// (measured before each transaction), and once more at the end. Which
/// transactions a seal precedes depends on the clock; whatever it reads, the
/// blocks are those of the batch build (`batch_trace`) for some seal decisions,
/// and so are numbered 1, 2, ... in order, each consistent and within the gas
/// limit, hold distinct ids, and hold only transactions of the batch.
pub fn build_from_batch(txs: Vec<Tx>, block_gas_limit: u64, block_time: u64) -> (blocks: Vec<Block>)
    requires
        sum_value(txs@) <= u64::MAX,
        txs@.len() + 2 <= u64::MAX,
    ensures
        batch_blocks_ok(blocks@, txs@, block_gas_limit),
        exists|seals: Seq<bool>, tr: Seq<(Builder, Seq<Block>)>|
            #[trigger] batch_trace(tr, txs@, seals, block_gas_limit) && blocks@ == batch_result(tr),
{
    batch_run(&txs, block_gas_limit, block_time, None)
}

/// Build blocks from a batch as `build_from_batch` does, for given clock
/// readings: `elapsed[i]` is the time since the last seal read before
/// transaction `i`, and a seal precedes it when that is at least `block_time`.
pub fn build_from_batch_at(txs: Vec<Tx>, block_gas_limit: u64, block_time: u64, elapsed: &Vec<u64>) -> (blocks: Vec<Block>)
    requires
        stretches_fit(txs@, seals_for(elapsed@, block_time)),
        txs@.len() + 2 <= u64::MAX,
        elapsed@.len() == txs@.len(),
    ensures
        batch_blocks_ok(blocks@, txs@, block_gas_limit),
        exists|tr: Seq<(Builder, Seq<Block>)>|
            #[trigger] batch_trace(tr, txs@, seals_for(elapsed@, block_time), block_gas_limit)
            && blocks@ == batch_result(tr),
{
    let blocks = batch_run(&txs, block_gas_limit, block_time, Some(elapsed));
    proof {
        let (seals, tr) = choose|seals: Seq<bool>, tr: Seq<(Builder, Seq<Block>)>|
            #[trigger] batch_trace(tr, txs@, seals, block_gas_limit)
            && blocks@ == batch_result(tr)
            && seals == seals_for(elapsed@, block_time);
        assert(batch_trace(tr, txs@, seals_for(elapsed@, block_time), block_gas_limit));
    }
    blocks
}

/// A builder driven by polling instead of an event loop.
pub struct PollingBuilder {
    builder: Builder,
    config: BuilderLoopConfig,
    block_start: Instant,
    stats: LoopStats,
}

impl PollingBuilder {
    /// The builder.
    pub closed spec fn spec_builder(&self) -> Builder {
        self.builder
    }

    /// The configuration.
    pub closed spec fn spec_config(&self) -> BuilderLoopConfig {
        self.config
    }

    /// The totals so far.
    pub closed spec fn spec_stats(&self) -> LoopStats {
        self.stats
    }

    /// A polling builder starting at `config.start_block`, with zero totals.
    pub fn new(config: BuilderLoopConfig) -> (p: Self)
        ensures
            p.spec_builder().wf(),
            p.spec_builder().spec_gas_limit() == config.block_gas_limit,
            p.spec_builder().spec_next_number() == config.start_block,
            p.spec_builder().spec_candidate() is None,
            p.spec_builder().spec_stats() == IncrementalStats::zero(),
            p.spec_builder().spec_base_fee() == 0,
            p.spec_config() == config,
            p.spec_stats() == LoopStats::zero(),
    {
        PollingBuilder {
            builder: Builder::with_start_block(config.block_gas_limit, config.start_block),
            config,
            block_start: instant_now(),
            stats: LoopStats::default(),
        }
    }

    /// Process a transaction and count it as received.
    pub fn process_tx(&mut self, tx: Tx) -> (r: UpdateResult)
        requires
            old(self).spec_builder().can_process(tx),
            old(self).spec_stats().total_txs_received < u64::MAX,
        ensures
            old(self).spec_builder().processed(final(self).spec_builder(), tx, r),
            final(self).spec_stats() == (LoopStats {
                total_txs_received: (old(self).spec_stats().total_txs_received + 1) as u64,
                ..old(self).spec_stats()
            }),
            final(self).spec_config() == old(self).spec_config(),
    {
        self.stats.total_txs_received = self.stats.total_txs_received + 1;
        self.builder.process_tx(tx)
    }

    /// `next` is this builder, and `r` the answer, after a poll that read
    /// `elapsed` nanoseconds since the last seal: before the block time nothing
    /// changes and nothing is sealed; from then on the candidate (if any) is
    /// sealed, handed out and counted.
    pub open spec fn polled(&self, next: PollingBuilder, elapsed: u64, r: Option<Block>) -> bool {
        &&& next.spec_config() == self.spec_config()
        &&& elapsed < self.spec_config().block_time ==> r is None
            && next.spec_builder() == self.spec_builder()
            && next.spec_stats() == self.spec_stats()
        &&& elapsed >= self.spec_config().block_time ==> {
            &&& self.spec_builder().sealed(next.spec_builder(), r)
            &&& r matches Some(b) ==> next.spec_stats() == self.spec_stats().counted(b)
            &&& r is None ==> next.spec_stats() == self.spec_stats()
        }
    }

    /// Seal when the block time has passed since the last seal. The time read
    /// decides; whatever it is, the outcome is that of a poll at some reading,
    /// so with a zero block time the candidate (if any) is always sealed.
    pub fn maybe_seal(&mut self) -> (r: Option<Block>)
        requires
            can_seal(old(self).spec_builder(), old(self).spec_stats()),
        ensures
            exists|elapsed: u64| #[trigger] old(self).polled(*final(self), elapsed, r),
            old(self).spec_config().block_time == 0 ==> old(self).spec_builder().sealed(final(self).spec_builder(), r),
    {
        let elapsed = nanos_since(&self.block_start);
        let r = self.maybe_seal_at(elapsed);
        proof {
            assert(old(self).polled(*self, elapsed, r));
        }
        r
    }

    /// Seal when `elapsed` (nanoseconds since the last seal) has reached the
    /// block time.
    pub fn maybe_seal_at(&mut self, elapsed: u64) -> (r: Option<Block>)
        requires
            can_seal(old(self).spec_builder(), old(self).spec_stats()),
        ensures
            old(self).polled(*final(self), elapsed, r),
    {
        if elapsed >= self.config.block_time {
            self.force_seal()
        } else {
            None
        }
    }

    /// Seal the candidate, if any, count it, and restart the block time.
    pub fn force_seal(&mut self) -> (r: Option<Block>)
        requires
            can_seal(old(self).spec_builder(), old(self).spec_stats()),
        ensures
            final(self).spec_config() == old(self).spec_config(),
            old(self).spec_builder().sealed(final(self).spec_builder(), r),
            r matches Some(b) ==> final(self).spec_stats() == old(self).spec_stats().counted(b),
            r is None ==> final(self).spec_stats() == old(self).spec_stats(),
    {
        match self.builder.seal() {
            Some(block) => {
                self.stats.count_block(&block);
                self.block_start = instant_now();
                Some(block)
            },
            None => None,
        }
    }

    /// Time left until the next scheduled seal, in nanoseconds.
    pub fn time_until_seal(&self) -> (t: u64)
        ensures
            t <= self.spec_config().block_time,
    {
        self.time_until_seal_at(nanos_since(&self.block_start))
    }

    /// Time left until the next scheduled seal when `elapsed` nanoseconds have
    /// passed since the last seal: zero once the block time is reached.
    pub fn time_until_seal_at(&self, elapsed: u64) -> (t: u64)
        ensures
            t == if elapsed < self.spec_config().block_time {
                (self.spec_config().block_time - elapsed) as u64
            } else {
                0
            },
    {
        self.config.block_time.saturating_sub(elapsed)
    }

    /// The candidate block.
    pub fn candidate(&self) -> (c: Option<&Block>)
        ensures
            c is None <==> self.spec_builder().spec_candidate() is None,
            c matches Some(b) ==> self.spec_builder().spec_candidate() == Some(*b),
    {
        self.builder.candidate()
    }

    /// The totals so far.
    pub fn stats(&self) -> (s: &LoopStats)
        ensures
            *s == self.spec_stats(),
    {
        &self.stats
    }
}

} // verus!
