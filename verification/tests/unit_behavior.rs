use staking_indexer::chain::{Block, ChainLog};
use staking_indexer::decode::{decode, decode_chunk, DecodeOutcome};
use staking_indexer::indexer::{
    control_step, initial_cursor, on_header, process_range, recovery_for, shrink_chunk,
    ControlEvent, Phase, Recovery, TailAction,
};
use staking_indexer::store::CheckpointStore;
use staking_indexer::types::{
    ChainContractKey, EventKind, IndexerConfig, IndexerError, RawLog, SchemaVariant, StakeEvent,
};

fn addr(b: u8) -> Vec<u8> {
    vec![b; 20]
}

fn word(b: u8) -> Vec<u8> {
    vec![b; 32]
}

fn amount_word(low: u8) -> Vec<u8> {
    let mut w = vec![0u8; 32];
    w[31] = low;
    w
}

fn staker_topic(b: u8) -> Vec<u8> {
    let mut t = vec![0u8; 12];
    t.extend(vec![b; 20]);
    t
}

fn tx_hash(block: u64, idx: u64) -> Vec<u8> {
    let mut v = vec![0u8; 32];
    v[0] = block as u8;
    v[1] = (block >> 8) as u8;
    v[2] = idx as u8;
    v
}

fn config_with_schema(schema: SchemaVariant) -> IndexerConfig {
    IndexerConfig {
        chain_id: 1,
        contract_address: addr(0xCC),
        schema,
        staked_topic: word(0xAA),
        unstaked_topic: word(0xBB),
        start_block: 100,
        chunk_size: 10,
        confirmation_lag: 0,
        stall_timeout_ms: 30_000,
    }
}

fn test_store() -> CheckpointStore {
    CheckpointStore::new(ChainContractKey {
        chain_id: 1,
        contract_address: addr(0xCC),
        schema: SchemaVariant::Current,
    })
}

fn current_log(block: u64, idx: u64, staked: bool, staker: u8, amount_low: u8) -> RawLog {
    RawLog {
        chain_id: 1,
        block_number: block,
        block_hash: word(0x07),
        tx_hash: tx_hash(block, idx),
        log_index: idx,
        topics: vec![
            if staked { word(0xAA) } else { word(0xBB) },
            staker_topic(staker),
        ],
        data: amount_word(amount_low),
        address: addr(0xCC),
        block_timestamp: 1_700_000_000 + block,
    }
}

#[test]
fn decode_extracts_staker_and_amount() {
    let cfg = config_with_schema(SchemaVariant::Current);
    let log = current_log(102, 0, true, 0x5E, 42);
    match decode(&log, &cfg) {
        DecodeOutcome::Decoded(e) => {
            assert_eq!(e.kind, EventKind::Staked);
            assert_eq!(e.staker, vec![0x5E; 20]);
            assert_eq!(e.amount, amount_word(42));
            assert_eq!(e.block_number, 102);
            assert_eq!(e.chain_id, 1);
            assert_eq!(e.contract_address, addr(0xCC));
            assert_eq!(e.tx_hash, tx_hash(102, 0));
            assert_eq!(e.log_index, 0);
        }
        _ => panic!("expected a decoded event"),
    }
}

#[test]
fn decode_unstaked_kind() {
    let cfg = config_with_schema(SchemaVariant::Current);
    let log = current_log(102, 0, false, 0x5E, 42);
    match decode(&log, &cfg) {
        DecodeOutcome::Decoded(e) => assert_eq!(e.kind, EventKind::Unstaked),
        _ => panic!("expected a decoded event"),
    }
}

#[test]
fn decode_skips_other_contracts_and_topics() {
    let cfg = config_with_schema(SchemaVariant::Current);

    let mut other_address = current_log(102, 0, true, 0x5E, 42);
    other_address.address = addr(0xDD);
    assert!(matches!(decode(&other_address, &cfg), DecodeOutcome::NotApplicable));

    let mut other_topic = current_log(102, 0, true, 0x5E, 42);
    other_topic.topics[0] = word(0xEE);
    assert!(matches!(decode(&other_topic, &cfg), DecodeOutcome::NotApplicable));

    let mut no_topics = current_log(102, 0, true, 0x5E, 42);
    no_topics.topics.clear();
    assert!(matches!(decode(&no_topics, &cfg), DecodeOutcome::NotApplicable));
}

#[test]
fn decode_rejects_malformed_payloads() {
    let cfg = config_with_schema(SchemaVariant::Current);

    let mut short_data = current_log(102, 0, true, 0x5E, 42);
    short_data.data = vec![0u8; 31];
    assert!(matches!(decode(&short_data, &cfg), DecodeOutcome::Malformed));

    let mut missing_staker = current_log(102, 0, true, 0x5E, 42);
    missing_staker.topics.truncate(1);
    assert!(matches!(decode(&missing_staker, &cfg), DecodeOutcome::Malformed));

    let mut short_topic = current_log(102, 0, true, 0x5E, 42);
    short_topic.topics[1] = vec![0u8; 16];
    assert!(matches!(decode(&short_topic, &cfg), DecodeOutcome::Malformed));
}

#[test]
fn legacy_schema_takes_two_data_words() {
    let cfg = config_with_schema(SchemaVariant::Legacy);

    let mut log = current_log(102, 0, true, 0x5E, 42);
    // One data word is malformed under the legacy schema...
    assert!(matches!(decode(&log, &cfg), DecodeOutcome::Malformed));

    // ...two words decode, and the amount is the first word.
    log.data.extend(word(0xFF));
    match decode(&log, &cfg) {
        DecodeOutcome::Decoded(e) => {
            assert_eq!(e.kind, EventKind::Staked);
            assert_eq!(e.amount, amount_word(42));
        }
        _ => panic!("expected a decoded event"),
    }
}

#[test]
fn decode_isolation_in_a_chunk() {
    // Five logs, one of them malformed: four events, one counted skip,
    // and the checkpoint still advances past the whole chunk.
    let cfg = config_with_schema(SchemaVariant::Current);
    let mut logs = vec![
        current_log(102, 0, true, 0x01, 1),
        current_log(102, 1, true, 0x02, 2),
        current_log(102, 2, false, 0x03, 3),
        current_log(102, 3, true, 0x04, 4),
    ];
    let mut bad = current_log(102, 4, true, 0x05, 5);
    bad.data = vec![0u8; 3];
    logs.insert(2, bad);

    let (events, skipped) = decode_chunk(&logs, &cfg);
    assert_eq!(events.len(), 4);
    assert_eq!(skipped, 1);
    assert_eq!(events[0].staker, vec![0x01; 20]);
    assert_eq!(events[3].staker, vec![0x04; 20]);

    let mut blocks = Vec::new();
    for _ in 0..=102 {
        blocks.push(Block { logs: Vec::new() });
    }
    let mut chain = ChainLog { blocks };
    chain.blocks[102].logs = logs;
    let mut store = test_store();
    assert!(process_range(&cfg, &chain, &mut store, 100, 102).is_ok());
    assert_eq!(store.row_count(), 4);
    assert_eq!(store.load_checkpoint(), Some(102));
}

#[test]
fn commit_upserts_on_the_natural_key() {
    let cfg = config_with_schema(SchemaVariant::Current);
    let mut store = test_store();

    let log = current_log(102, 0, true, 0x5E, 42);
    let event = match decode(&log, &cfg) {
        DecodeOutcome::Decoded(e) => e,
        _ => panic!("expected a decoded event"),
    };
    let replacement = StakeEvent {
        amount: amount_word(77),
        ..match decode(&log, &cfg) {
            DecodeOutcome::Decoded(e) => e,
            _ => panic!("expected a decoded event"),
        }
    };

    let batch = vec![event];
    assert!(store.commit(&batch, 102).is_ok());
    assert_eq!(store.row_count(), 1);

    // Same key again: the row is replaced, not duplicated.
    let batch2 = vec![replacement];
    assert!(store.commit(&batch2, 102).is_ok());
    assert_eq!(store.row_count(), 1);
    assert_eq!(store.row_at(0).amount, amount_word(77));
}

#[test]
fn commit_fault_is_one_shot() {
    let mut store = test_store();
    let empty: Vec<StakeEvent> = Vec::new();

    store.inject_commit_fault();
    assert!(store.commit(&empty, 10).is_err());
    assert_eq!(store.load_checkpoint(), None);
    assert!(store.commit(&empty, 10).is_ok());
    assert_eq!(store.load_checkpoint(), Some(10));
}

#[test]
fn stall_recovery_resubscribes_exactly_once() {
    // A stall tears the stream down into backfill; once backfill catches
    // up it resubscribes, exactly once, and headers flow again.
    let mut phase = Phase::LiveTailing;
    let happenings = [
        ControlEvent::Stalled,
        ControlEvent::CaughtUp,
        ControlEvent::HeaderSeen,
        ControlEvent::HeaderSeen,
    ];
    let mut resubscriptions = 0;
    let mut restarts = 0;
    for e in happenings {
        let (next, action) = control_step(phase, e);
        phase = next;
        match action {
            TailAction::Resubscribe => resubscriptions += 1,
            TailAction::RestartBackfill => restarts += 1,
            _ => {}
        }
    }
    assert_eq!(restarts, 1);
    assert_eq!(resubscriptions, 1);
    assert_eq!(phase, Phase::LiveTailing);
}

#[test]
fn network_failure_restarts_backfill() {
    let (phase, action) = control_step(Phase::LiveTailing, ControlEvent::NetworkFailed);
    assert_eq!(phase, Phase::Backfilling);
    assert_eq!(action, TailAction::RestartBackfill);

    let (phase, action) = control_step(Phase::Backfilling, ControlEvent::NetworkFailed);
    assert_eq!(phase, Phase::Backfilling);
    assert_eq!(action, TailAction::RestartBackfill);
}

#[test]
fn headers_trigger_the_eligible_range() {
    let cfg = config_with_schema(SchemaVariant::Current);

    // confirmation_lag is 0: every new header is eligible at once.
    assert_eq!(
        on_header(106, 106, &cfg),
        TailAction::ProcessRange { from: 106, to: 106 }
    );
    assert_eq!(on_header(107, 106, &cfg), TailAction::Wait);

    let mut lagged = config_with_schema(SchemaVariant::Current);
    lagged.confirmation_lag = 5;
    assert_eq!(on_header(100, 104, &lagged), TailAction::Wait);
    assert_eq!(
        on_header(100, 106, &lagged),
        TailAction::ProcessRange { from: 100, to: 101 }
    );
}

#[test]
fn failure_policy_mapping() {
    assert_eq!(recovery_for(IndexerError::Network), Recovery::RestartListening);
    assert_eq!(recovery_for(IndexerError::StallTimeout), Recovery::RestartListening);
    assert_eq!(recovery_for(IndexerError::RangeTooLarge), Recovery::ShrinkRange);
    assert_eq!(recovery_for(IndexerError::Decode), Recovery::SkipAndCount);
    assert_eq!(recovery_for(IndexerError::Store), Recovery::Fatal);
    assert_eq!(recovery_for(IndexerError::Config), Recovery::Fatal);
}

#[test]
fn oversized_ranges_shrink_but_never_vanish() {
    assert_eq!(shrink_chunk(10), 5);
    assert_eq!(shrink_chunk(5), 2);
    assert_eq!(shrink_chunk(2), 1);
    assert_eq!(shrink_chunk(1), 1);
}

#[test]
fn cursor_starts_after_the_checkpoint() {
    let cfg = config_with_schema(SchemaVariant::Current);
    assert_eq!(initial_cursor(None, &cfg), 100);
    assert_eq!(initial_cursor(Some(250), &cfg), 251);
}
