//! The per-stream indexing engine.
//!
//! Backfill walks from the stored checkpoint (or the configured start
//! block) to the head minus the confirmation lag, in bounded chunks; each
//! chunk is decoded and committed atomically together with its checkpoint.
//! Live tailing processes newly eligible blocks through the very same
//! decode-and-commit step, and a supervision machine decides what a stall,
//! a network failure, or a rejected range query means. The proofs at the
//! end state the engine's global guarantees: a consistent store is exactly
//! the scan of every block from the start block to the checkpoint — no
//! gap, no duplicate, nothing beyond — and that determines the ledger
//! whatever the history of runs, restarts, and crashes was.

use vstd::prelude::*;

use crate::chain::{
    decoded_in_range, lemma_decoded_range_split, lemma_range_decoded_distinct, unique_log_keys,
    ChainLog,
};
use crate::decode::{decode_chunk, decoded_events};
use crate::model::{
    event_map_of, key_of, lemma_event_map_at, lemma_event_map_concat, lemma_event_map_covers,
    lemma_event_map_dom, lemma_views_concat, views_of, EventKey,
};
use crate::store::{checkpoint_after, CheckpointStore};
use crate::types::{EventView, IndexerConfig, IndexerError, StakeEvent, StoreError};

verus! {

/// The larger of two values.
pub open spec fn max_of(a: int, b: int) -> int {
    if a >= b {
        a
    } else {
        b
    }
}

/// The first block a stream still has to process, given its stored
/// checkpoint: the block after the checkpoint, or the configured start
/// block if nothing was ever indexed.
pub open spec fn spec_cursor(checkpoint: Option<u64>, cfg: IndexerConfig) -> int {
    match checkpoint {
        None => cfg.start_block as int,
        Some(c) => c + 1,
    }
}

/// The highest block a stream may process now: the head minus the
/// confirmation lag, which keeps the engine clear of blocks a transient
/// reorganization could still invalidate.
pub open spec fn safe_head(chain: ChainLog, cfg: IndexerConfig) -> int {
    chain.head_spec() - cfg.confirmation_lag
}

/// Whether a backfill pass over this chain would commit at least one
/// chunk.
pub open spec fn has_backfill_work(
    store: CheckpointStore,
    chain: ChainLog,
    cfg: IndexerConfig,
) -> bool {
    spec_cursor(store.checkpoint_spec(), cfg) <= safe_head(chain, cfg)
}

/// Everything the stream should have scanned so far: the events of every
/// block from the configured start block up to the stored checkpoint.
pub open spec fn scanned_events(
    store: CheckpointStore,
    chain: ChainLog,
    cfg: IndexerConfig,
) -> Seq<EventView> {
    decoded_in_range(
        chain,
        cfg,
        cfg.start_block as int,
        spec_cursor(store.checkpoint_spec(), cfg),
    )
}

/// The store is exactly the result of scanning every block from the
/// configured start block up to (and including) the checkpoint: no gap, no
/// duplicate, nothing beyond.
pub open spec fn consistent(store: CheckpointStore, chain: ChainLog, cfg: IndexerConfig) -> bool {
    &&& store.wf()
    &&& cfg.start_block as int <= spec_cursor(store.checkpoint_spec(), cfg)
    &&& store.ledger() == event_map_of(scanned_events(store, chain, cfg))
}

/// A fresh store — no rows, no checkpoint — is consistent with any chain.
pub proof fn lemma_fresh_store_consistent(
    store: CheckpointStore,
    chain: ChainLog,
    cfg: IndexerConfig,
)
    requires
        store.wf(),
        store.checkpoint_spec() is None,
        store.ledger() == Map::<EventKey, EventView>::empty(),
    ensures
        consistent(store, chain, cfg),
{
    assert(scanned_events(store, chain, cfg) =~= Seq::<EventView>::empty());
}

/// The cursor a stream starts from: the block after the loaded checkpoint,
/// or the configured start block when no checkpoint exists.
pub fn initial_cursor(checkpoint: Option<u64>, cfg: &IndexerConfig) -> (r: u64)
    requires
        spec_cursor(checkpoint, *cfg) <= u64::MAX,
    ensures
        r as int == spec_cursor(checkpoint, *cfg),
{
    match checkpoint {
        None => cfg.start_block,
        Some(c) => c + 1,
    }
}

/// Decode and commit the blocks `[from, to]` as one unit: fetch each
/// block's logs, decode them — skipping malformed logs, which are never
/// fatal — and commit the decoded events atomically together with `to` as
/// the new checkpoint. Both backfill and live tailing run every block
/// through this one step.
pub fn process_range(
    cfg: &IndexerConfig,
    chain: &ChainLog,
    store: &mut CheckpointStore,
    from: u64,
    to: u64,
) -> (r: Result<(), StoreError>)
    requires
        cfg.wf(),
        chain.wf(),
        old(store).wf(),
        from <= to,
        (to as int) < chain.blocks@.len(),
    ensures
        final(store).wf(),
        final(store).stream_spec() == old(store).stream_spec(),
        !final(store).failing(),
        r is Err <==> old(store).failing(),
        r is Ok ==> final(store).ledger() == old(store).ledger().union_prefer_right(
            event_map_of(decoded_in_range(*chain, *cfg, from as int, to as int + 1)),
        ),
        r is Ok ==> final(store).checkpoint_spec() == Some(
            checkpoint_after(old(store).checkpoint_spec(), to),
        ),
        r is Err ==> final(store).rows() == old(store).rows(),
        r is Err ==> final(store).ledger() == old(store).ledger(),
        r is Err ==> final(store).checkpoint_spec() == old(store).checkpoint_spec(),
{
    let n = chain.blocks.len();
    let mut events: Vec<StakeEvent> = Vec::new();
    let mut b: u64 = from;
    proof {
        assert(views_of(events@) =~= decoded_in_range(*chain, *cfg, from as int, from as int));
    }
    while b <= to
        invariant
            cfg.wf(),
            from <= b,
            b <= to + 1,
            n as int == chain.blocks@.len(),
            (to as int) < n as int,
            (to as int) < chain.blocks@.len(),
            views_of(events@) == decoded_in_range(*chain, *cfg, from as int, b as int),
        decreases to + 1 - b,
    {
        let block_logs_vec = chain.logs_of_block(b);
        let mut decoded = decode_chunk(block_logs_vec, cfg);
        let ghost evs_before = events@;
        let ghost fresh = decoded.0@;
        events.append(&mut decoded.0);
        proof {
            lemma_views_concat(evs_before, fresh);
            assert(events@ == evs_before + fresh);
            assert(decoded_in_range(*chain, *cfg, from as int, b as int + 1)
                == decoded_in_range(*chain, *cfg, from as int, b as int) + decoded_events(
                chain.block_logs(b as int),
                *cfg,
            ));
        }
        b += 1;
    }
    store.commit(&events, to)
}

/// One full backfill pass: from the stored checkpoint (or the configured
/// start block) up to the head minus the confirmation lag, in chunks of at
/// most `chunk_size` blocks, each committed atomically. A failing commit
/// is fatal and surfaces at once; it is never retried here, because the
/// atomic commit leaves no partial state to repair.
#[verifier::loop_isolation(false)]
pub fn run_backfill(
    cfg: &IndexerConfig,
    chain: &ChainLog,
    store: &mut CheckpointStore,
) -> (r: Result<(), StoreError>)
    requires
        cfg.wf(),
        chain.wf(),
        consistent(*old(store), *chain, *cfg),
        spec_cursor(old(store).checkpoint_spec(), *cfg) <= u64::MAX,
    ensures
        consistent(*final(store), *chain, *cfg),
        final(store).stream_spec() == old(store).stream_spec(),
        r is Err <==> (old(store).failing() && has_backfill_work(*old(store), *chain, *cfg)),
        final(store).failing() == (old(store).failing() && !has_backfill_work(
            *old(store),
            *chain,
            *cfg,
        )),
        r is Ok ==> spec_cursor(final(store).checkpoint_spec(), *cfg) == max_of(
            spec_cursor(old(store).checkpoint_spec(), *cfg),
            safe_head(*chain, *cfg) + 1,
        ),
        r is Err ==> final(store).rows() == old(store).rows(),
        r is Err ==> final(store).ledger() == old(store).ledger(),
        r is Err ==> final(store).checkpoint_spec() == old(store).checkpoint_spec(),
{
    let head = chain.head();
    if head < cfg.confirmation_lag {
        return Ok(());
    }
    let n = chain.blocks.len();
    proof {
        assert(head as int == n as int - 1);
    }
    let safe: u64 = head - cfg.confirmation_lag;
    let mut cursor: u64 = initial_cursor(store.load_checkpoint(), cfg);
    while cursor <= safe
        invariant
            old(store).failing() ==> cursor as int == spec_cursor(
                old(store).checkpoint_spec(),
                *cfg,
            ),
            consistent(*store, *chain, *cfg),
            store.stream_spec() == old(store).stream_spec(),
            cursor as int == spec_cursor(store.checkpoint_spec(), *cfg),
            spec_cursor(old(store).checkpoint_spec(), *cfg) <= cursor as int,
            cursor as int <= max_of(
                spec_cursor(old(store).checkpoint_spec(), *cfg),
                safe_head(*chain, *cfg) + 1,
            ),
            store.failing() == (old(store).failing() && cursor as int == spec_cursor(
                old(store).checkpoint_spec(),
                *cfg,
            )),
            store.failing() ==> store.rows() == old(store).rows(),
            store.failing() ==> store.ledger() == old(store).ledger(),
            store.failing() ==> store.checkpoint_spec() == old(store).checkpoint_spec(),
        decreases safe + 1 - cursor,
    {
        let ghost cur0 = cursor as int;
        let to: u64 = if safe - cursor >= cfg.chunk_size - 1 {
            cursor + (cfg.chunk_size - 1)
        } else {
            safe
        };
        match process_range(cfg, chain, store, cursor, to) {
            Ok(()) => {
                proof {
                    lemma_decoded_range_split(
                        *chain,
                        *cfg,
                        cfg.start_block as int,
                        cur0,
                        to as int + 1,
                    );
                    lemma_event_map_concat(
                        decoded_in_range(*chain, *cfg, cfg.start_block as int, cur0),
                        decoded_in_range(*chain, *cfg, cur0, to as int + 1),
                    );
                }
                cursor = to + 1;
            },
            Err(e) => {
                return Err(e);
            },
        }
    }
    Ok(())
}

/// Law (idempotent replay): the ledger of a consistent store is determined
/// by the chain, the configuration, and the cursor alone. Two runs that
/// both end consistent and caught up to the same point — whether they
/// started from scratch or from any earlier consistent checkpoint — hold
/// identical ledgers: no duplicate, no gap.
pub proof fn lemma_idempotent_replay(
    s1: CheckpointStore,
    s2: CheckpointStore,
    chain: ChainLog,
    cfg: IndexerConfig,
)
    requires
        consistent(s1, chain, cfg),
        consistent(s2, chain, cfg),
        spec_cursor(s1.checkpoint_spec(), cfg) == spec_cursor(s2.checkpoint_spec(), cfg),
    ensures
        s1.ledger() == s2.ledger(),
{
}

/// Law (gap-free coverage): a consistent store covers every block from the
/// start block up to its checkpoint — every event any such block decodes
/// to is present under its key, even though blocks with no matching logs
/// contribute nothing — and it holds no key that does not decode out of
/// those blocks.
pub proof fn lemma_gap_free_coverage(store: CheckpointStore, chain: ChainLog, cfg: IndexerConfig)
    requires
        consistent(store, chain, cfg),
    ensures
        forall|b: int, i: int|
            cfg.start_block <= b < spec_cursor(store.checkpoint_spec(), cfg) && 0 <= i
                < decoded_events(chain.block_logs(b), cfg).len() ==> store.ledger().dom().contains(
                key_of(#[trigger] decoded_events(chain.block_logs(b), cfg)[i]),
            ),
        forall|k: EventKey|
            store.ledger().dom().contains(k) ==> exists|j: int|
                0 <= j < scanned_events(store, chain, cfg).len() && key_of(
                    #[trigger] scanned_events(store, chain, cfg)[j],
                ) == k,
{
    let start = cfg.start_block as int;
    let cursor = spec_cursor(store.checkpoint_spec(), cfg);
    let all = scanned_events(store, chain, cfg);
    assert forall|b: int, i: int|
        start <= b < cursor && 0 <= i < decoded_events(chain.block_logs(b), cfg).len()
        implies store.ledger().dom().contains(
        key_of(#[trigger] decoded_events(chain.block_logs(b), cfg)[i]),
    ) by {
        let blk = decoded_events(chain.block_logs(b), cfg);
        lemma_decoded_range_split(chain, cfg, start, b, cursor);
        lemma_decoded_range_split(chain, cfg, b, b + 1, cursor);
        assert(decoded_in_range(chain, cfg, b, b) == Seq::<EventView>::empty());
        assert(decoded_in_range(chain, cfg, b, b + 1) =~= blk);
        let before = decoded_in_range(chain, cfg, start, b);
        let idx = before.len() + i;
        assert(all[idx as int] == blk[i]);
        lemma_event_map_covers(all, idx as int);
    }
    assert forall|k: EventKey| store.ledger().dom().contains(k) implies exists|j: int|
        0 <= j < scanned_events(store, chain, cfg).len() && key_of(
            #[trigger] scanned_events(store, chain, cfg)[j],
        ) == k by {
        lemma_event_map_dom(all, k);
    }
}

/// Law (exact coverage): on a chain where no two logs share a transaction
/// hash and log index — as on a real chain — a consistent store holds
/// every event of the scanned range exactly as decoded, under its natural
/// key: nothing lost, nothing altered, nothing counted twice.
pub proof fn lemma_exact_coverage(store: CheckpointStore, chain: ChainLog, cfg: IndexerConfig)
    requires
        consistent(store, chain, cfg),
        unique_log_keys(chain),
    ensures
        forall|b: int, i: int|
            cfg.start_block <= b < spec_cursor(store.checkpoint_spec(), cfg) && 0 <= i
                < decoded_events(chain.block_logs(b), cfg).len() ==> {
                &&& store.ledger().dom().contains(
                    key_of(#[trigger] decoded_events(chain.block_logs(b), cfg)[i]),
                )
                &&& store.ledger()[key_of(decoded_events(chain.block_logs(b), cfg)[i])]
                    == decoded_events(chain.block_logs(b), cfg)[i]
            },
{
    let start = cfg.start_block as int;
    let cursor = spec_cursor(store.checkpoint_spec(), cfg);
    let all = scanned_events(store, chain, cfg);
    lemma_range_decoded_distinct(chain, cfg, start, cursor);
    assert forall|b: int, i: int|
        start <= b < cursor && 0 <= i < decoded_events(chain.block_logs(b), cfg).len()
        implies {
        &&& store.ledger().dom().contains(
            key_of(#[trigger] decoded_events(chain.block_logs(b), cfg)[i]),
        )
        &&& store.ledger()[key_of(decoded_events(chain.block_logs(b), cfg)[i])]
            == decoded_events(chain.block_logs(b), cfg)[i]
    } by {
        let blk = decoded_events(chain.block_logs(b), cfg);
        lemma_decoded_range_split(chain, cfg, start, b, cursor);
        lemma_decoded_range_split(chain, cfg, b, b + 1, cursor);
        assert(decoded_in_range(chain, cfg, b, b) == Seq::<EventView>::empty());
        assert(decoded_in_range(chain, cfg, b, b + 1) =~= blk);
        let before = decoded_in_range(chain, cfg, start, b);
        let idx = before.len() + i;
        assert(all[idx as int] == blk[i]);
        lemma_event_map_at(all, idx as int);
    }
}

/// Backfill/live-tail phase of one stream's supervision machine.
#[derive(Clone, Copy, PartialEq, Eq, Structural, Debug)]
pub enum Phase {
    Backfilling,
    LiveTailing,
}

/// Connection-level happenings the supervision machine reacts to.
#[derive(Clone, Copy, PartialEq, Eq, Structural, Debug)]
pub enum ControlEvent {
    /// Backfill caught up to within the confirmation lag of the head.
    CaughtUp,
    /// A header arrived on the live subscription; the watchdog resets.
    HeaderSeen,
    /// The stall watchdog fired: no header within the stall timeout.
    Stalled,
    /// An RPC call failed.
    NetworkFailed,
}

/// What the surrounding runtime must do after a supervision step.
#[derive(Clone, Copy, PartialEq, Eq, Structural, Debug)]
pub enum TailAction {
    /// Run the blocks `[from, to]` through the decode-and-commit step.
    ProcessRange { from: u64, to: u64 },
    /// Nothing is eligible; keep waiting for headers.
    Wait,
    /// Open (or reopen) the header subscription; the stream is live.
    Resubscribe,
    /// Tear everything down, reconnect, and backfill from the last
    /// committed checkpoint.
    RestartBackfill,
}

/// The phase after one supervision step: catching up enters live tailing;
/// a stall or a network failure falls back to backfill, which resumes from
/// the checkpoint and so never loses or repeats work.
pub open spec fn spec_next_phase(p: Phase, e: ControlEvent) -> Phase {
    match e {
        ControlEvent::CaughtUp => Phase::LiveTailing,
        ControlEvent::HeaderSeen => p,
        ControlEvent::Stalled => Phase::Backfilling,
        ControlEvent::NetworkFailed => Phase::Backfilling,
    }
}

/// The action one supervision step asks for. Only the transition out of
/// backfill — catching up — opens a subscription.
pub open spec fn spec_control_action(p: Phase, e: ControlEvent) -> TailAction {
    match e {
        ControlEvent::CaughtUp => if p is Backfilling {
            TailAction::Resubscribe
        } else {
            TailAction::Wait
        },
        ControlEvent::HeaderSeen => TailAction::Wait,
        ControlEvent::Stalled => TailAction::RestartBackfill,
        ControlEvent::NetworkFailed => TailAction::RestartBackfill,
    }
}

/// One supervision step of a stream.
pub fn control_step(p: Phase, e: ControlEvent) -> (r: (Phase, TailAction))
    ensures
        r.0 == spec_next_phase(p, e),
        r.1 == spec_control_action(p, e),
{
    match e {
        ControlEvent::CaughtUp => {
            let act = if matches!(p, Phase::Backfilling) {
                TailAction::Resubscribe
            } else {
                TailAction::Wait
            };
            (Phase::LiveTailing, act)
        },
        ControlEvent::HeaderSeen => (p, TailAction::Wait),
        ControlEvent::Stalled => (Phase::Backfilling, TailAction::RestartBackfill),
        ControlEvent::NetworkFailed => (Phase::Backfilling, TailAction::RestartBackfill),
    }
}

/// The range a newly arrived header makes eligible, if any: blocks beyond
/// the confirmation lag, from the stream's cursor up to `header - lag`.
/// Eligible blocks run through the same decode-and-commit step as
/// backfill.
pub fn on_header(cursor: u64, header: u64, cfg: &IndexerConfig) -> (r: TailAction)
    ensures
        (header as int - cfg.confirmation_lag as int) >= (cursor as int) ==> r == (
        TailAction::ProcessRange { from: cursor, to: (header as int - cfg.confirmation_lag as int) as u64 }),
        (header as int - cfg.confirmation_lag as int) < (cursor as int) ==> r == TailAction::Wait,
{
    if header >= cfg.confirmation_lag {
        let safe = header - cfg.confirmation_lag;
        if safe >= cursor {
            return TailAction::ProcessRange { from: cursor, to: safe };
        }
    }
    TailAction::Wait
}

/// What the engine does about each failure, per the failure policy.
#[derive(Clone, Copy, PartialEq, Eq, Structural, Debug)]
pub enum Recovery {
    /// Tear down and re-establish listening, then resume from the
    /// checkpoint.
    RestartListening,
    /// Retry the same range with a smaller span; never skip blocks.
    ShrinkRange,
    /// Skip the one offending log, count it, and carry on.
    SkipAndCount,
    /// Propagate out; the whole group restarts against fresh connections.
    Fatal,
}

/// The failure policy: network errors and stalls force a restart of
/// listening; an oversized range is retried smaller; a malformed log is
/// skipped and counted; a store error or a configuration error is fatal
/// and never absorbed.
pub open spec fn spec_recovery_for(e: IndexerError) -> Recovery {
    match e {
        IndexerError::Network => Recovery::RestartListening,
        IndexerError::StallTimeout => Recovery::RestartListening,
        IndexerError::RangeTooLarge => Recovery::ShrinkRange,
        IndexerError::Decode => Recovery::SkipAndCount,
        IndexerError::Store => Recovery::Fatal,
        IndexerError::Config => Recovery::Fatal,
    }
}

/// Decide what to do about a failure.
pub fn recovery_for(e: IndexerError) -> (r: Recovery)
    ensures
        r == spec_recovery_for(e),
{
    match e {
        IndexerError::Network => Recovery::RestartListening,
        IndexerError::StallTimeout => Recovery::RestartListening,
        IndexerError::RangeTooLarge => Recovery::ShrinkRange,
        IndexerError::Decode => Recovery::SkipAndCount,
        IndexerError::Store => Recovery::Fatal,
        IndexerError::Config => Recovery::Fatal,
    }
}

/// Shrink the span of a range query the provider rejected as too large:
/// half the span, never below one block. The same range is then retried
/// from the same starting block, so no block is ever skipped.
pub fn shrink_chunk(span: u64) -> (r: u64)
    requires
        span >= 1,
    ensures
        r == (if span / 2 >= 1 {
            span / 2
        } else {
            1
        }),
        1 <= r <= span,
        span > 1 ==> r < span,
{
    let half = span / 2;
    if half >= 1 {
        half
    } else {
        1
    }
}

/// The phase after a whole run of supervision steps.
pub open spec fn spec_run_phases(p: Phase, evs: Seq<ControlEvent>) -> Phase
    decreases evs.len(),
{
    if evs.len() == 0 {
        p
    } else {
        spec_next_phase(spec_run_phases(p, evs.drop_last()), evs.last())
    }
}

/// How many subscription attempts a run of supervision steps causes.
pub open spec fn spec_subscribe_count(p: Phase, evs: Seq<ControlEvent>) -> nat
    decreases evs.len(),
{
    if evs.len() == 0 {
        0
    } else {
        spec_subscribe_count(p, evs.drop_last()) + if spec_control_action(
            spec_run_phases(p, evs.drop_last()),
            evs.last(),
        ) is Resubscribe {
            1nat
        } else {
            0nat
        }
    }
}

/// No stall and no network failure anywhere in the run.
pub open spec fn stall_free(evs: Seq<ControlEvent>) -> bool {
    forall|i: int|
        0 <= i < evs.len() ==> !((#[trigger] evs[i]) is Stalled) && !(evs[i] is NetworkFailed)
}

/// Some step of the run reports backfill caught up.
pub open spec fn contains_caught_up(evs: Seq<ControlEvent>) -> bool {
    exists|i: int| 0 <= i < evs.len() && (#[trigger] evs[i]) is CaughtUp
}

/// From backfill, an undisturbed run subscribes exactly once if it catches
/// up, and not at all otherwise; it is live afterwards exactly when it
/// caught up.
proof fn lemma_backfill_subscribe_count(evs: Seq<ControlEvent>)
    requires
        stall_free(evs),
    ensures
        spec_subscribe_count(Phase::Backfilling, evs) == (if contains_caught_up(evs) {
            1nat
        } else {
            0nat
        }),
        spec_run_phases(Phase::Backfilling, evs) == (if contains_caught_up(evs) {
            Phase::LiveTailing
        } else {
            Phase::Backfilling
        }),
    decreases evs.len(),
{
    if evs.len() == 0 {
        assert(!contains_caught_up(evs));
    } else {
        let bl = evs.drop_last();
        assert(stall_free(bl)) by {
            assert(forall|i: int| 0 <= i < bl.len() ==> bl[i] == evs[i]);
        }
        lemma_backfill_subscribe_count(bl);
        if contains_caught_up(bl) {
            let i = choose|i: int| 0 <= i < bl.len() && (#[trigger] bl[i]) is CaughtUp;
            assert(evs[i] is CaughtUp);
            assert(contains_caught_up(evs));
        }
        if evs.last() is CaughtUp {
            assert(evs[evs.len() - 1] is CaughtUp);
            assert(contains_caught_up(evs));
        }
        if contains_caught_up(evs) && !contains_caught_up(bl) && !(evs.last() is CaughtUp) {
            let i = choose|i: int| 0 <= i < evs.len() && (#[trigger] evs[i]) is CaughtUp;
            assert(i < evs.len() - 1);
            assert(bl[i] is CaughtUp);
            assert(false);
        }
        assert(!(evs.last() is Stalled) && !(evs.last() is NetworkFailed)) by {
            assert(evs[evs.len() - 1] == evs.last());
        }
    }
}

/// Law (stall recovery): once a stall (or a network failure) has forced
/// the stream back into backfill, any following run of events with no
/// further disruption issues at most one resubscription attempt — exactly
/// one as soon as backfill catches up, and never a retry storm. Forward
/// progress resumes because the stream is live tailing again after that
/// one resubscription.
pub proof fn lemma_stall_recovery(evs: Seq<ControlEvent>)
    requires
        stall_free(evs),
    ensures
        spec_subscribe_count(Phase::Backfilling, evs) <= 1,
        contains_caught_up(evs) ==> spec_subscribe_count(Phase::Backfilling, evs) == 1
            && spec_run_phases(Phase::Backfilling, evs) == Phase::LiveTailing,
{
    lemma_backfill_subscribe_count(evs);
}

} // verus!
