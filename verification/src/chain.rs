//! A pure description of one chain's append-only log of blocks.
//!
//! Block `b` of the chain is `blocks[b]`; the head is the last block. The
//! engine is verified against this description: a live connection delivers
//! the same data — the head height and each block's logs — range by range.

use vstd::prelude::*;

use crate::decode::{
    decoded_events, decoded_from, distinct_log_keys, lemma_decoded_distinct,
    lemma_decoded_origin,
};
use crate::model::{distinct_keys, key_of, EventKey};
use crate::types::{EventView, IndexerConfig, RawLog};

verus! {

/// One block's logs, ascending by log index, exactly as a range query
/// covering the block would deliver them.
pub struct Block {
    pub logs: Vec<RawLog>,
}

/// One chain's blocks, from genesis to head.
pub struct ChainLog {
    pub blocks: Vec<Block>,
}

impl ChainLog {
    /// There is at least one block.
    pub open spec fn wf(&self) -> bool {
        self.blocks@.len() >= 1
    }

    /// The chain's head height.
    pub open spec fn head_spec(&self) -> int {
        self.blocks@.len() - 1
    }

    /// The logs of block `b`; a block outside the chain has none.
    pub open spec fn block_logs(&self, b: int) -> Seq<RawLog> {
        if 0 <= b < self.blocks@.len() {
            self.blocks@[b].logs@
        } else {
            Seq::empty()
        }
    }

    /// Current confirmed chain height, as a provider's head query reports
    /// it.
    pub fn head(&self) -> (r: u64)
        requires
            self.wf(),
        ensures
            r == self.head_spec(),
    {
        (self.blocks.len() - 1) as u64
    }

    /// The logs of block `b`, as a one-block range query delivers them.
    pub fn logs_of_block(&self, b: u64) -> (r: &Vec<RawLog>)
        requires
            b < self.blocks@.len(),
        ensures
            r@ == self.block_logs(b as int),
    {
        let n = self.blocks.len();
        proof {
            assert((b as int) < (n as int));
            assert(b as int <= usize::MAX as int);
        }
        &self.blocks[b as usize].logs
    }
}

/// The events that decoding every block of `[from, upto)` yields, in block
/// order.
pub open spec fn decoded_in_range(
    chain: ChainLog,
    cfg: IndexerConfig,
    from: int,
    upto: int,
) -> Seq<EventView>
    decreases upto - from,
{
    if upto <= from {
        Seq::empty()
    } else {
        decoded_in_range(chain, cfg, from, upto - 1) + decoded_events(
            chain.block_logs(upto - 1),
            cfg,
        )
    }
}

/// No two logs anywhere on the chain share a transaction hash and log
/// index, as no two logs of a real chain do.
pub open spec fn unique_log_keys(chain: ChainLog) -> bool {
    forall|b1: int, i1: int, b2: int, i2: int|
        #![trigger chain.block_logs(b1)[i1], chain.block_logs(b2)[i2]]
        0 <= b1 && 0 <= i1 < chain.block_logs(b1).len() && 0 <= b2 && 0 <= i2
            < chain.block_logs(b2).len() && !(b1 == b2 && i1 == i2) ==> (chain.block_logs(
            b1,
        )[i1].tx_hash@ != chain.block_logs(b2)[i2].tx_hash@ || chain.block_logs(b1)[i1].log_index
            != chain.block_logs(b2)[i2].log_index)
}

/// The key `k` is the natural key of some log in the blocks `[a, c)`.
pub open spec fn range_key(
    chain: ChainLog,
    cfg: IndexerConfig,
    a: int,
    c: int,
    k: EventKey,
) -> bool {
    exists|b: int, i: int|
        #![trigger chain.block_logs(b)[i]]
        a <= b < c && 0 <= i < chain.block_logs(b).len() && k == (
            cfg.chain_id,
            chain.block_logs(b)[i].tx_hash@,
            chain.block_logs(b)[i].log_index,
        )
}

/// Every event decoded from a range carries the key of one of the range's
/// logs.
pub proof fn lemma_range_key_origin(
    chain: ChainLog,
    cfg: IndexerConfig,
    a: int,
    c: int,
    j: int,
)
    requires
        0 <= j < decoded_in_range(chain, cfg, a, c).len(),
    ensures
        range_key(chain, cfg, a, c, key_of(decoded_in_range(chain, cfg, a, c)[j])),
    decreases c - a,
{
    let d = decoded_in_range(chain, cfg, a, c);
    if c > a {
        let first = decoded_in_range(chain, cfg, a, c - 1);
        let logs = chain.block_logs(c - 1);
        let blk = decoded_events(logs, cfg);
        if j < first.len() {
            lemma_range_key_origin(chain, cfg, a, c - 1, j);
            let (b, i) = choose|b: int, i: int|
                #![trigger chain.block_logs(b)[i]]
                a <= b < c - 1 && 0 <= i < chain.block_logs(b).len() && key_of(first[j]) == (
                    cfg.chain_id,
                    chain.block_logs(b)[i].tx_hash@,
                    chain.block_logs(b)[i].log_index,
                );
            assert(d[j] == first[j]);
            assert(range_key(chain, cfg, a, c, key_of(d[j])));
        } else {
            let jj = j - first.len();
            assert(d[j] == blk[jj]);
            lemma_decoded_origin(logs, cfg, jj);
            let i = choose|i: int| decoded_from(logs, cfg, i, blk[jj]);
            assert(key_of(blk[jj]) == (cfg.chain_id, logs[i].tx_hash@, logs[i].log_index));
            assert(range_key(chain, cfg, a, c, key_of(d[j])));
        }
    }
}

/// On a chain with unique log keys, the events decoded from any range have
/// pairwise distinct natural keys: nothing is ever decoded twice.
pub proof fn lemma_range_decoded_distinct(chain: ChainLog, cfg: IndexerConfig, a: int, c: int)
    requires
        unique_log_keys(chain),
        0 <= a,
    ensures
        distinct_keys(decoded_in_range(chain, cfg, a, c)),
    decreases c - a,
{
    if c > a {
        lemma_range_decoded_distinct(chain, cfg, a, c - 1);
        let d = decoded_in_range(chain, cfg, a, c);
        let first = decoded_in_range(chain, cfg, a, c - 1);
        let logs = chain.block_logs(c - 1);
        let blk = decoded_events(logs, cfg);
        assert(distinct_log_keys(logs)) by {
            assert forall|i1: int, i2: int| 0 <= i1 < i2 < logs.len() implies (logs[i1].tx_hash@
                != logs[i2].tx_hash@ || logs[i1].log_index != logs[i2].log_index) by {
                assert(chain.block_logs(c - 1)[i1] == logs[i1]);
                assert(chain.block_logs(c - 1)[i2] == logs[i2]);
            }
        }
        lemma_decoded_distinct(logs, cfg);
        assert forall|j1: int, j2: int| 0 <= j1 < j2 < d.len() implies key_of(d[j1]) != key_of(
            d[j2],
        ) by {
            if j2 < first.len() {
                assert(d[j1] == first[j1]);
                assert(d[j2] == first[j2]);
            } else if j1 >= first.len() {
                assert(d[j1] == blk[j1 - first.len()]);
                assert(d[j2] == blk[j2 - first.len()]);
            } else {
                let jj = j2 - first.len();
                assert(d[j1] == first[j1]);
                assert(d[j2] == blk[jj]);
                lemma_range_key_origin(chain, cfg, a, c - 1, j1);
                let (b1, i1) = choose|b1: int, i1: int|
                    #![trigger chain.block_logs(b1)[i1]]
                    a <= b1 < c - 1 && 0 <= i1 < chain.block_logs(b1).len() && key_of(first[j1])
                        == (
                        cfg.chain_id,
                        chain.block_logs(b1)[i1].tx_hash@,
                        chain.block_logs(b1)[i1].log_index,
                    );
                lemma_decoded_origin(logs, cfg, jj);
                let i2 = choose|i: int| decoded_from(logs, cfg, i, blk[jj]);
                assert(key_of(blk[jj]) == (cfg.chain_id, logs[i2].tx_hash@, logs[i2].log_index));
                assert(chain.block_logs(c - 1)[i2] == logs[i2]);
                assert(!(b1 == c - 1 && i1 == i2));
            }
        }
    }
}

/// A range of blocks decodes as its two halves in order, split anywhere.
pub proof fn lemma_decoded_range_split(
    chain: ChainLog,
    cfg: IndexerConfig,
    a: int,
    b: int,
    c: int,
)
    requires
        a <= b <= c,
    ensures
        decoded_in_range(chain, cfg, a, c) == decoded_in_range(chain, cfg, a, b)
            + decoded_in_range(chain, cfg, b, c),
    decreases c - b,
{
    if c == b {
        assert(decoded_in_range(chain, cfg, a, b) + decoded_in_range(chain, cfg, b, c)
            =~= decoded_in_range(chain, cfg, a, c));
    } else {
        lemma_decoded_range_split(chain, cfg, a, b, c - 1);
        assert(decoded_in_range(chain, cfg, a, b) + (decoded_in_range(chain, cfg, b, c - 1)
            + decoded_events(chain.block_logs(c - 1), cfg)) =~= (decoded_in_range(
            chain,
            cfg,
            a,
            b,
        ) + decoded_in_range(chain, cfg, b, c - 1)) + decoded_events(
            chain.block_logs(c - 1),
            cfg,
        ));
    }
}

} // verus!
