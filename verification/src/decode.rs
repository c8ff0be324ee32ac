//! The schema-aware event decoder: pure, synchronous interpretation of raw
//! logs as typed staking events.
//!
//! Interpretation rules are selected by the first topic (the event
//! signature). A log whose address or signature does not concern the
//! configured contract is "not applicable" and silently skipped. A log that
//! matches a known signature but violates the schema's shape is malformed;
//! it is skipped and counted, never fatal to its chunk.

use vstd::prelude::*;

use crate::model::{distinct_keys, key_of, views_of};
use crate::types::{
    bytes_eq, copy_bytes, sub_bytes, EventKind, EventView, IndexerConfig, RawLog, RawLogView,
    SchemaVariant, StakeEvent,
};

verus! {

/// Outcome of decoding one raw log against the configured schema.
pub enum DecodeOutcome {
    /// The log matched a known signature and decoded cleanly.
    Decoded(StakeEvent),
    /// The log does not concern the configured contract and schema.
    NotApplicable,
    /// The log matched a known signature, but its payload violates the
    /// schema.
    Malformed,
}

/// Number of 32-byte data words the schema's events carry: the current
/// schema emits the amount alone, the legacy schema emits the amount
/// followed by a second word the engine does not read.
pub open spec fn spec_data_words(schema: SchemaVariant) -> int {
    match schema {
        SchemaVariant::Current => 1,
        SchemaVariant::Legacy => 2,
    }
}

/// Whether the log concerns the configured contract and carries one of the
/// schema's known event signatures as its first topic.
pub open spec fn spec_applicable(l: RawLogView, cfg: IndexerConfig) -> bool {
    &&& l.address == cfg.contract_address@
    &&& l.topics.len() >= 1
    &&& (l.topics[0] == cfg.staked_topic@ || l.topics[0] == cfg.unstaked_topic@)
}

/// The event kind named by the log's first topic.
pub open spec fn spec_kind(l: RawLogView, cfg: IndexerConfig) -> EventKind {
    if l.topics[0] == cfg.staked_topic@ {
        EventKind::Staked
    } else {
        EventKind::Unstaked
    }
}

/// Whether an applicable log is shaped as the schema demands: the staker as
/// the one indexed argument, and the schema's number of data words.
pub open spec fn spec_shaped(l: RawLogView, cfg: IndexerConfig) -> bool {
    &&& l.topics.len() == 2
    &&& l.topics[1].len() == 32
    &&& l.data.len() == 32 * spec_data_words(cfg.schema)
}

/// The event an applicable, well-shaped log decodes to: the staker is the
/// low 20 bytes of the second topic, the amount the first data word.
pub open spec fn spec_event(l: RawLogView, cfg: IndexerConfig) -> EventView {
    EventView {
        chain_id: cfg.chain_id,
        contract_address: cfg.contract_address@,
        kind: spec_kind(l, cfg),
        staker: l.topics[1].subrange(12, 32),
        amount: l.data.subrange(0, 32),
        block_number: l.block_number,
        block_hash: l.block_hash,
        tx_hash: l.tx_hash,
        log_index: l.log_index,
        block_timestamp: l.block_timestamp,
    }
}

/// Decode one raw log according to the configured schema.
pub fn decode(l: &RawLog, cfg: &IndexerConfig) -> (r: DecodeOutcome)
    requires
        cfg.wf(),
    ensures
        match r {
            DecodeOutcome::Decoded(e) => spec_applicable(l@, *cfg) && spec_shaped(l@, *cfg)
                && e@ == spec_event(l@, *cfg),
            DecodeOutcome::NotApplicable => !spec_applicable(l@, *cfg),
            DecodeOutcome::Malformed => spec_applicable(l@, *cfg) && !spec_shaped(l@, *cfg),
        },
{
    if !bytes_eq(&l.address, &cfg.contract_address) {
        return DecodeOutcome::NotApplicable;
    }
    if l.topics.len() == 0 {
        return DecodeOutcome::NotApplicable;
    }
    let is_staked = bytes_eq(&l.topics[0], &cfg.staked_topic);
    let is_unstaked = bytes_eq(&l.topics[0], &cfg.unstaked_topic);
    proof {
        assert(l@.topics[0] == l.topics@[0]@);
    }
    if !is_staked && !is_unstaked {
        return DecodeOutcome::NotApplicable;
    }
    let words: usize = match cfg.schema {
        SchemaVariant::Current => 1,
        SchemaVariant::Legacy => 2,
    };
    if l.topics.len() != 2 {
        return DecodeOutcome::Malformed;
    }
    let indexed = &l.topics[1];
    proof {
        assert(l@.topics[1] == l.topics@[1]@);
    }
    if indexed.len() != 32 {
        return DecodeOutcome::Malformed;
    }
    if l.data.len() != 32 * words {
        return DecodeOutcome::Malformed;
    }
    let kind = if is_staked {
        EventKind::Staked
    } else {
        EventKind::Unstaked
    };
    let e = StakeEvent {
        chain_id: cfg.chain_id,
        contract_address: copy_bytes(&cfg.contract_address),
        kind,
        staker: sub_bytes(indexed, 12, 32),
        amount: sub_bytes(&l.data, 0, 32),
        block_number: l.block_number,
        block_hash: copy_bytes(&l.block_hash),
        tx_hash: copy_bytes(&l.tx_hash),
        log_index: l.log_index,
        block_timestamp: l.block_timestamp,
    };
    proof {
        assert(e@ =~= spec_event(l@, *cfg));
    }
    DecodeOutcome::Decoded(e)
}

/// The events a sequence of raw logs decodes to, in order, leaving out logs
/// that are not applicable or malformed.
pub open spec fn decoded_events(logs: Seq<RawLog>, cfg: IndexerConfig) -> Seq<EventView>
    decreases logs.len(),
{
    if logs.len() == 0 {
        Seq::empty()
    } else {
        let rest = decoded_events(logs.drop_last(), cfg);
        if spec_applicable(logs.last()@, cfg) && spec_shaped(logs.last()@, cfg) {
            rest.push(spec_event(logs.last()@, cfg))
        } else {
            rest
        }
    }
}

/// How many logs of the sequence are malformed under the schema.
pub open spec fn malformed_count(logs: Seq<RawLog>, cfg: IndexerConfig) -> nat
    decreases logs.len(),
{
    if logs.len() == 0 {
        0
    } else {
        malformed_count(logs.drop_last(), cfg) + if spec_applicable(logs.last()@, cfg)
            && !spec_shaped(logs.last()@, cfg) {
            1nat
        } else {
            0nat
        }
    }
}

/// No two logs of the sequence share a transaction hash and log index.
pub open spec fn distinct_log_keys(logs: Seq<RawLog>) -> bool {
    forall|i1: int, i2: int|
        0 <= i1 < i2 < logs.len() ==> ((#[trigger] logs[i1]).tx_hash@ != (
        #[trigger] logs[i2]).tx_hash@ || logs[i1].log_index != logs[i2].log_index)
}

/// The event `e` decodes out of the log at `i`.
pub open spec fn decoded_from(
    logs: Seq<RawLog>,
    cfg: IndexerConfig,
    i: int,
    e: EventView,
) -> bool {
    &&& 0 <= i < logs.len()
    &&& spec_applicable(logs[i]@, cfg)
    &&& spec_shaped(logs[i]@, cfg)
    &&& e == spec_event(logs[i]@, cfg)
}

/// Every decoded event decodes out of one of the logs.
pub proof fn lemma_decoded_origin(logs: Seq<RawLog>, cfg: IndexerConfig, j: int)
    requires
        0 <= j < decoded_events(logs, cfg).len(),
    ensures
        exists|i: int| decoded_from(logs, cfg, i, decoded_events(logs, cfg)[j]),
    decreases logs.len(),
{
    let d = decoded_events(logs, cfg);
    let bl = logs.drop_last();
    let dbl = decoded_events(bl, cfg);
    if spec_applicable(logs.last()@, cfg) && spec_shaped(logs.last()@, cfg) {
        if j == d.len() - 1 {
            assert(logs[logs.len() - 1] == logs.last());
            assert(decoded_from(logs, cfg, logs.len() - 1, d[j]));
        } else {
            lemma_decoded_origin(bl, cfg, j);
            let i = choose|i: int| decoded_from(bl, cfg, i, dbl[j]);
            assert(bl[i] == logs[i]);
            assert(d[j] == dbl[j]);
            assert(decoded_from(logs, cfg, i, d[j]));
        }
    } else {
        lemma_decoded_origin(bl, cfg, j);
        let i = choose|i: int| decoded_from(bl, cfg, i, dbl[j]);
        assert(bl[i] == logs[i]);
        assert(decoded_from(logs, cfg, i, d[j]));
    }
}

/// Logs with pairwise distinct keys decode to events with pairwise
/// distinct keys: decoding preserves the natural key.
pub proof fn lemma_decoded_distinct(logs: Seq<RawLog>, cfg: IndexerConfig)
    requires
        distinct_log_keys(logs),
    ensures
        distinct_keys(decoded_events(logs, cfg)),
    decreases logs.len(),
{
    if logs.len() > 0 {
        let bl = logs.drop_last();
        assert(distinct_log_keys(bl)) by {
            assert(forall|i: int| 0 <= i < bl.len() ==> bl[i] == logs[i]);
        }
        lemma_decoded_distinct(bl, cfg);
        let d = decoded_events(logs, cfg);
        let dbl = decoded_events(bl, cfg);
        if spec_applicable(logs.last()@, cfg) && spec_shaped(logs.last()@, cfg) {
            assert forall|j: int| 0 <= j < dbl.len() implies key_of(dbl[j])
                != key_of(d.last()) by {
                lemma_decoded_origin(bl, cfg, j);
                let i = choose|i: int| decoded_from(bl, cfg, i, dbl[j]);
                assert(logs[i] == bl[i]);
                assert(logs[logs.len() - 1] == logs.last());
                assert(logs[i].tx_hash@ != logs.last().tx_hash@ || logs[i].log_index
                    != logs.last().log_index);
            }
            assert forall|j1: int, j2: int| 0 <= j1 < j2 < d.len() implies key_of(
                d[j1],
            ) != key_of(d[j2]) by {
                assert(d[j1] == dbl[j1]);
                if j2 < d.len() - 1 {
                    assert(d[j2] == dbl[j2]);
                } else {
                    assert(d[j2] == d.last());
                }
            }
        } else {
            assert(d == dbl);
        }
    }
}

/// Decode a whole chunk of raw logs. Malformed logs are skipped and
/// counted, never fatal; the remaining applicable logs decode in order.
pub fn decode_chunk(logs: &Vec<RawLog>, cfg: &IndexerConfig) -> (r: (Vec<StakeEvent>, u64))
    requires
        cfg.wf(),
    ensures
        views_of(r.0@) == decoded_events(logs@, *cfg),
        r.1 == malformed_count(logs@, *cfg),
{
    let mut events: Vec<StakeEvent> = Vec::new();
    let mut skipped: u64 = 0;
    let mut i: usize = 0;
    proof {
        assert(views_of(events@) =~= decoded_events(logs@.take(0), *cfg));
    }
    while i < logs.len()
        invariant
            cfg.wf(),
            i <= logs@.len(),
            views_of(events@) == decoded_events(logs@.take(i as int), *cfg),
            skipped == malformed_count(logs@.take(i as int), *cfg),
            skipped <= i,
        decreases logs@.len() - i,
    {
        let ghost prefix = logs@.take(i as int);
        let ghost evs_before = events@;
        match decode(&logs[i], cfg) {
            DecodeOutcome::Decoded(e) => {
                events.push(e);
            },
            DecodeOutcome::NotApplicable => {},
            DecodeOutcome::Malformed => {
                skipped = skipped + 1;
            },
        }
        i += 1;
        proof {
            let next = logs@.take(i as int);
            assert(next.drop_last() =~= prefix);
            assert(next.last() == logs@[i - 1]);
            assert(views_of(events@) =~= decoded_events(next, *cfg)) by {
                assert(views_of(evs_before) == decoded_events(prefix, *cfg));
                if spec_applicable(logs@[i - 1]@, *cfg) && spec_shaped(logs@[i - 1]@, *cfg) {
                    assert(views_of(events@) =~= views_of(evs_before).push(events@.last()@));
                }
            }
        }
    }
    proof {
        assert(logs@.take(logs@.len() as int) =~= logs@);
    }
    (events, skipped)
}

} // verus!
