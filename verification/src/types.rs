//! Plain data model: raw logs as delivered by a chain client, decoded staking
//! events, identifiers for one indexing stream, configuration, and the error
//! taxonomy.

use vstd::prelude::*;

verus! {

/// Which event schema the configured contract emits.
///
/// The current and the legacy contract deployment share one indexing engine;
/// they differ only in the ABI layout of their events.
#[derive(Clone, Copy, PartialEq, Eq, Structural, Debug)]
pub enum SchemaVariant {
    Current,
    Legacy,
}

/// The kind of a decoded staking event.
#[derive(Clone, Copy, PartialEq, Eq, Structural, Debug)]
pub enum EventKind {
    Staked,
    Unstaked,
}

/// Identifies one independent indexing stream: a chain, the contract address
/// on it, and the schema that contract emits. Immutable, set at configuration
/// time.
pub struct ChainContractKey {
    pub chain_id: u64,
    /// 20-byte contract address.
    pub contract_address: Vec<u8>,
    pub schema: SchemaVariant,
}

/// A raw log as delivered by the chain client: ephemeral, never persisted
/// as-is.
pub struct RawLog {
    pub chain_id: u64,
    pub block_number: u64,
    /// 32-byte hash of the containing block.
    pub block_hash: Vec<u8>,
    /// 32-byte hash of the containing transaction.
    pub tx_hash: Vec<u8>,
    /// Index of the log within its transaction.
    pub log_index: u64,
    /// Indexed topics; the first is the event signature.
    pub topics: Vec<Vec<u8>>,
    /// Unindexed data words.
    pub data: Vec<u8>,
    /// Address of the contract that emitted the log.
    pub address: Vec<u8>,
    /// Timestamp of the containing block.
    pub block_timestamp: u64,
}

/// The mathematical value of a [`RawLog`].
#[verifier::ext_equal]
pub struct RawLogView {
    pub chain_id: u64,
    pub block_number: u64,
    pub block_hash: Seq<u8>,
    pub tx_hash: Seq<u8>,
    pub log_index: u64,
    pub topics: Seq<Seq<u8>>,
    pub data: Seq<u8>,
    pub address: Seq<u8>,
    pub block_timestamp: u64,
}

impl View for RawLog {
    type V = RawLogView;

    open spec fn view(&self) -> RawLogView {
        RawLogView {
            chain_id: self.chain_id,
            block_number: self.block_number,
            block_hash: self.block_hash@,
            tx_hash: self.tx_hash@,
            log_index: self.log_index,
            topics: self.topics@.map_values(|t: Vec<u8>| t@),
            data: self.data@,
            address: self.address@,
            block_timestamp: self.block_timestamp,
        }
    }
}

/// A decoded staking event: one durable row of the append-only event ledger.
/// Never mutated after creation.
pub struct StakeEvent {
    pub chain_id: u64,
    /// 20-byte address of the contract that emitted the event.
    pub contract_address: Vec<u8>,
    pub kind: EventKind,
    /// 20-byte address of the staker.
    pub staker: Vec<u8>,
    /// Amount as a 32-byte big-endian word, exactly as emitted.
    pub amount: Vec<u8>,
    pub block_number: u64,
    pub block_hash: Vec<u8>,
    pub tx_hash: Vec<u8>,
    pub log_index: u64,
    pub block_timestamp: u64,
}

/// The mathematical value of a [`StakeEvent`].
#[verifier::ext_equal]
pub struct EventView {
    pub chain_id: u64,
    pub contract_address: Seq<u8>,
    pub kind: EventKind,
    pub staker: Seq<u8>,
    pub amount: Seq<u8>,
    pub block_number: u64,
    pub block_hash: Seq<u8>,
    pub tx_hash: Seq<u8>,
    pub log_index: u64,
    pub block_timestamp: u64,
}

impl View for StakeEvent {
    type V = EventView;

    open spec fn view(&self) -> EventView {
        EventView {
            chain_id: self.chain_id,
            contract_address: self.contract_address@,
            kind: self.kind,
            staker: self.staker@,
            amount: self.amount@,
            block_number: self.block_number,
            block_hash: self.block_hash@,
            tx_hash: self.tx_hash@,
            log_index: self.log_index,
            block_timestamp: self.block_timestamp,
        }
    }
}

/// Immutable per-stream configuration, constructed once at startup and passed
/// into the engine; the engine never re-reads configuration mid-run.
pub struct IndexerConfig {
    pub chain_id: u64,
    /// 20-byte address of the contract to index.
    pub contract_address: Vec<u8>,
    pub schema: SchemaVariant,
    /// 32-byte topic signature of the schema's staking event.
    pub staked_topic: Vec<u8>,
    /// 32-byte topic signature of the schema's unstaking event.
    pub unstaked_topic: Vec<u8>,
    /// First block this stream is responsible for.
    pub start_block: u64,
    /// Largest number of blocks fetched in one backfill range query.
    pub chunk_size: u64,
    /// Number of most-recent blocks deliberately left unprocessed, to
    /// tolerate chain reorganization.
    pub confirmation_lag: u64,
    /// Maximum idle time, in milliseconds, with no new block notification
    /// before a subscription is presumed dead. Consumed by the caller that
    /// arms the watchdog; the engine only decides what a stall means.
    pub stall_timeout_ms: u64,
}

impl IndexerConfig {
    /// Structural validity of a configuration.
    pub open spec fn wf(&self) -> bool {
        &&& self.contract_address@.len() == 20
        &&& self.staked_topic@.len() == 32
        &&& self.unstaked_topic@.len() == 32
        &&& self.staked_topic@ != self.unstaked_topic@
        &&& self.chunk_size >= 1
    }
}

/// True exactly when the two byte vectors hold the same bytes.
pub fn bytes_eq(a: &Vec<u8>, b: &Vec<u8>) -> (r: bool)
    ensures
        r == (a@ == b@),
{
    if a.len() != b.len() {
        return false;
    }
    let mut i: usize = 0;
    while i < a.len()
        invariant
            i <= a@.len(),
            a@.len() == b@.len(),
            forall|j: int| 0 <= j < i ==> a@[j] == b@[j],
        decreases a@.len() - i,
    {
        if a[i] != b[i] {
            return false;
        }
        i += 1;
    }
    proof {
        assert(a@ =~= b@);
    }
    true
}

/// A fresh copy of the byte vector.
pub fn copy_bytes(v: &Vec<u8>) -> (r: Vec<u8>)
    ensures
        r@ == v@,
{
    sub_bytes(v, 0, v.len())
}

/// The bytes of `v` from `from` (inclusive) to `to` (exclusive), as a fresh
/// vector.
pub fn sub_bytes(v: &Vec<u8>, from: usize, to: usize) -> (r: Vec<u8>)
    requires
        from <= to <= v@.len(),
    ensures
        r@ == v@.subrange(from as int, to as int),
{
    let mut r: Vec<u8> = Vec::new();
    let mut i: usize = from;
    while i < to
        invariant
            from <= i <= to <= v@.len(),
            r@ == v@.subrange(from as int, i as int),
        decreases to - i,
    {
        r.push(v[i]);
        i += 1;
        proof {
            assert(v@.subrange(from as int, i as int) =~= v@.subrange(
                from as int,
                i as int - 1,
            ).push(v@[i as int - 1]));
        }
    }
    r
}

/// A copy of the event, byte for byte.
pub fn copy_event(e: &StakeEvent) -> (r: StakeEvent)
    ensures
        r@ == e@,
{
    let r = StakeEvent {
        chain_id: e.chain_id,
        contract_address: copy_bytes(&e.contract_address),
        kind: e.kind,
        staker: copy_bytes(&e.staker),
        amount: copy_bytes(&e.amount),
        block_number: e.block_number,
        block_hash: copy_bytes(&e.block_hash),
        tx_hash: copy_bytes(&e.tx_hash),
        log_index: e.log_index,
        block_timestamp: e.block_timestamp,
    };
    proof {
        assert(r@ =~= e@);
    }
    r
}

/// Error raised by the checkpoint store when a commit cannot be made durable.
/// Fatal to the indexing stream that receives it: commits are atomic, so
/// there is no partial state to repair locally.
#[derive(Clone, Copy, PartialEq, Eq, Structural, Debug)]
pub enum StoreError {
    CommitFailed,
}

/// Everything that can go wrong inside one indexing stream.
#[derive(Clone, Copy, PartialEq, Eq, Structural, Debug)]
pub enum IndexerError {
    /// RPC unreachable, malformed response, or rate limit.
    Network,
    /// The live-tail watchdog fired: no header within the stall timeout.
    StallTimeout,
    /// The provider rejected a range query as spanning too many blocks.
    RangeTooLarge,
    /// A single log matching a known topic had a malformed payload.
    Decode,
    /// The store refused a commit.
    Store,
    /// Missing or invalid configuration, discovered at startup.
    Config,
}

} // verus!
