use staking_indexer::chain::{Block, ChainLog};
use staking_indexer::indexer::{process_range, run_backfill};
use staking_indexer::store::CheckpointStore;
use staking_indexer::types::{
    ChainContractKey, EventKind, IndexerConfig, RawLog, SchemaVariant,
};

fn addr(b: u8) -> Vec<u8> {
    vec![b; 20]
}

fn word(b: u8) -> Vec<u8> {
    vec![b; 32]
}

fn amount_word(low: u8) -> Vec<u8> {
    let mut w = vec![0u8; 32];
    w[31] = low;
    w
}

fn staker_topic(b: u8) -> Vec<u8> {
    let mut t = vec![0u8; 12];
    t.extend(vec![b; 20]);
    t
}

fn tx_hash(block: u64, idx: u64) -> Vec<u8> {
    let mut v = vec![0u8; 32];
    v[0] = block as u8;
    v[1] = (block >> 8) as u8;
    v[2] = idx as u8;
    v
}

fn test_config(start_block: u64, chunk_size: u64, confirmation_lag: u64) -> IndexerConfig {
    IndexerConfig {
        chain_id: 1,
        contract_address: addr(0xCC),
        schema: SchemaVariant::Current,
        staked_topic: word(0xAA),
        unstaked_topic: word(0xBB),
        start_block,
        chunk_size,
        confirmation_lag,
        stall_timeout_ms: 30_000,
    }
}

fn test_store() -> CheckpointStore {
    CheckpointStore::new(ChainContractKey {
        chain_id: 1,
        contract_address: addr(0xCC),
        schema: SchemaVariant::Current,
    })
}

fn valid_log(block: u64, idx: u64, staked: bool, staker: u8, amount_low: u8) -> RawLog {
    RawLog {
        chain_id: 1,
        block_number: block,
        block_hash: word(0x07),
        tx_hash: tx_hash(block, idx),
        log_index: idx,
        topics: vec![
            if staked { word(0xAA) } else { word(0xBB) },
            staker_topic(staker),
        ],
        data: amount_word(amount_low),
        address: addr(0xCC),
        block_timestamp: 1_700_000_000 + block,
    }
}

fn empty_chain(head: u64) -> ChainLog {
    let mut blocks = Vec::new();
    for _ in 0..=head {
        blocks.push(Block { logs: Vec::new() });
    }
    ChainLog { blocks }
}

fn push_log(chain: &mut ChainLog, log: RawLog) {
    let b = log.block_number as usize;
    chain.blocks[b].logs.push(log);
}

fn scenario_chain(head: u64) -> ChainLog {
    let mut chain = empty_chain(head);
    push_log(&mut chain, valid_log(102, 0, true, 0x11, 5));
    push_log(&mut chain, valid_log(102, 1, true, 0x22, 7));
    push_log(&mut chain, valid_log(104, 0, false, 0x11, 3));
    chain
}

fn row_keys(store: &CheckpointStore) -> Vec<(u64, Vec<u8>, u64)> {
    let mut keys = Vec::new();
    for i in 0..store.row_count() {
        let row = store.row_at(i);
        keys.push((row.chain_id, row.tx_hash.clone(), row.log_index));
    }
    keys.sort();
    keys
}

#[test]
fn end_to_end_scenario() {
    let cfg = test_config(100, 10, 0);
    let chain = scenario_chain(105);
    let mut store = test_store();

    assert!(run_backfill(&cfg, &chain, &mut store).is_ok());

    assert_eq!(store.load_checkpoint(), Some(105));
    assert_eq!(store.row_count(), 3);

    let first = store.row_at(0);
    assert_eq!(first.kind, EventKind::Staked);
    assert_eq!(first.block_number, 102);
    assert_eq!(first.staker, vec![0x11; 20]);
    assert_eq!(first.amount, amount_word(5));
    assert_eq!(first.chain_id, 1);
    assert_eq!(first.contract_address, addr(0xCC));
    assert_eq!(first.log_index, 0);
    assert_eq!(first.tx_hash, tx_hash(102, 0));
    assert_eq!(first.block_hash, word(0x07));
    assert_eq!(first.block_timestamp, 1_700_000_000 + 102);

    let second = store.row_at(1);
    assert_eq!(second.kind, EventKind::Staked);
    assert_eq!(second.block_number, 102);
    assert_eq!(second.staker, vec![0x22; 20]);
    assert_eq!(second.amount, amount_word(7));

    let third = store.row_at(2);
    assert_eq!(third.kind, EventKind::Unstaked);
    assert_eq!(third.block_number, 104);
    assert_eq!(third.staker, vec![0x11; 20]);
    assert_eq!(third.amount, amount_word(3));
}

#[test]
fn idempotent_replay() {
    let cfg = test_config(100, 3, 0);
    let chain = scenario_chain(105);

    let mut first_run = test_store();
    assert!(run_backfill(&cfg, &chain, &mut first_run).is_ok());

    // Second pass over the same chain, resuming from the final checkpoint.
    assert!(run_backfill(&cfg, &chain, &mut first_run).is_ok());
    assert_eq!(first_run.row_count(), 3);
    assert_eq!(first_run.load_checkpoint(), Some(105));

    // A run from scratch ends with the identical set of rows.
    let mut from_scratch = test_store();
    assert!(run_backfill(&cfg, &chain, &mut from_scratch).is_ok());
    assert_eq!(row_keys(&from_scratch), row_keys(&first_run));
    assert_eq!(from_scratch.load_checkpoint(), first_run.load_checkpoint());
}

#[test]
fn no_regression_across_restarts() {
    let cfg = test_config(100, 2, 0);
    let chain = scenario_chain(105);
    let mut store = test_store();

    // Crash injected mid-pass: the first chunk's commit fails.
    store.inject_commit_fault();
    assert!(run_backfill(&cfg, &chain, &mut store).is_err());
    assert_eq!(store.load_checkpoint(), None);
    assert_eq!(store.row_count(), 0);

    // Restart: the pass completes and the checkpoint advances.
    assert!(run_backfill(&cfg, &chain, &mut store).is_ok());
    assert_eq!(store.load_checkpoint(), Some(105));

    // A stale commit can never move the checkpoint backwards.
    let empty: Vec<staking_indexer::types::StakeEvent> = Vec::new();
    assert!(store.commit(&empty, 50).is_ok());
    assert_eq!(store.load_checkpoint(), Some(105));

    // Another restart over the same chain keeps it where it was.
    assert!(run_backfill(&cfg, &chain, &mut store).is_ok());
    assert_eq!(store.load_checkpoint(), Some(105));
}

#[test]
fn atomic_commit_failure_leaves_checkpoint() {
    let cfg = test_config(100, 10, 0);
    let chain = scenario_chain(105);
    let mut store = test_store();

    // Commit cleanly through block 101 first.
    assert!(process_range(&cfg, &chain, &mut store, 100, 101).is_ok());
    assert_eq!(store.load_checkpoint(), Some(101));
    assert_eq!(store.row_count(), 0);

    // A failure injected at the commit boundary: neither the events nor
    // the checkpoint of the chunk over blocks 102..=104 may land.
    store.inject_commit_fault();
    assert!(process_range(&cfg, &chain, &mut store, 102, 104).is_err());
    assert_eq!(store.load_checkpoint(), Some(101));
    assert_eq!(store.row_count(), 0);

    // On restart the same chunk replays cleanly.
    assert!(process_range(&cfg, &chain, &mut store, 102, 104).is_ok());
    assert_eq!(store.load_checkpoint(), Some(104));
    assert_eq!(store.row_count(), 3);
}

#[test]
fn crash_resume_scenario() {
    // Head 105 with a confirmation lag of 5: the first pass commits
    // exactly through block 100.
    let cfg = test_config(95, 10, 5);
    let mut chain = empty_chain(105);
    push_log(&mut chain, valid_log(100, 0, true, 0x33, 9));
    push_log(&mut chain, valid_log(104, 0, false, 0x33, 2));

    let mut store = test_store();
    assert!(run_backfill(&cfg, &chain, &mut store).is_ok());
    assert_eq!(store.load_checkpoint(), Some(100));
    assert_eq!(store.row_count(), 1);

    // The process restarts against a chain that has moved on; backfill
    // resumes at 101: the row for block 100 is not duplicated, and no
    // block is skipped.
    for _ in 106..=110 {
        chain.blocks.push(Block { logs: Vec::new() });
    }
    assert!(run_backfill(&cfg, &chain, &mut store).is_ok());
    assert_eq!(store.load_checkpoint(), Some(105));
    assert_eq!(store.row_count(), 2);
    let keys = row_keys(&store);
    assert_eq!(keys[0].1, tx_hash(100, 0));
    assert_eq!(keys[1].1, tx_hash(104, 0));
}

#[test]
fn replaying_a_chunk_does_not_duplicate_rows() {
    let cfg = test_config(100, 10, 0);
    let chain = scenario_chain(105);
    let mut store = test_store();

    assert!(process_range(&cfg, &chain, &mut store, 100, 105).is_ok());
    assert_eq!(store.row_count(), 3);

    // At-least-once delivery: the very same chunk commits again.
    assert!(process_range(&cfg, &chain, &mut store, 100, 105).is_ok());
    assert_eq!(store.row_count(), 3);
    assert_eq!(store.load_checkpoint(), Some(105));
}

#[test]
fn backfill_honours_confirmation_lag() {
    let cfg = test_config(100, 10, 3);
    let mut chain = scenario_chain(105);
    // An event inside the confirmation window must not be ingested yet.
    push_log(&mut chain, valid_log(105, 0, true, 0x44, 1));

    let mut store = test_store();
    assert!(run_backfill(&cfg, &chain, &mut store).is_ok());
    assert_eq!(store.load_checkpoint(), Some(102));
    assert_eq!(store.row_count(), 2);
}

#[test]
fn backfill_with_nothing_eligible_is_a_no_op() {
    let cfg = test_config(100, 10, 10);
    let chain = scenario_chain(105);
    let mut store = test_store();

    // Head minus lag is below the start block: nothing to do.
    assert!(run_backfill(&cfg, &chain, &mut store).is_ok());
    assert_eq!(store.load_checkpoint(), None);
    assert_eq!(store.row_count(), 0);
}

#[test]
fn small_chunks_cover_the_same_range() {
    let cfg_small = test_config(100, 1, 0);
    let cfg_large = test_config(100, 100, 0);
    let chain = scenario_chain(105);

    let mut small = test_store();
    let mut large = test_store();
    assert!(run_backfill(&cfg_small, &chain, &mut small).is_ok());
    assert!(run_backfill(&cfg_large, &chain, &mut large).is_ok());

    assert_eq!(row_keys(&small), row_keys(&large));
    assert_eq!(small.load_checkpoint(), large.load_checkpoint());
}
