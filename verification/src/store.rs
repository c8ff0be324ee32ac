//! The checkpoint store: a durable event ledger plus the last fully
//! processed block for one indexing stream, with one atomic commit
//! operation.
//!
//! A commit either writes every event of the batch — upserting on the
//! natural key, so re-delivery never duplicates a row — and advances the
//! checkpoint, or changes nothing at all. The checkpoint only ever
//! advances, never regresses, whatever value a commit carries. A simulated
//! commit failure can be injected to exercise crash behaviour at the commit
//! boundary.

use vstd::pervasive::VecAdditionalExecFns;
use vstd::prelude::*;

use crate::model::{
    distinct_keys, event_map_of, key_of, lemma_event_map_push, lemma_event_map_update, views_of,
    EventKey,
};
use crate::types::{bytes_eq, copy_event, ChainContractKey, EventView, StakeEvent, StoreError};

verus! {

/// The checkpoint a store holds after committing `new`: the checkpoint
/// only ever advances.
pub open spec fn checkpoint_after(old_checkpoint: Option<u64>, new: u64) -> u64 {
    match old_checkpoint {
        None => new,
        Some(c) => if c >= new {
            c
        } else {
            new
        },
    }
}

/// `a` is no later than `b`: an absent checkpoint precedes any other, and
/// a present one never sits above a later value.
pub open spec fn checkpoint_le(a: Option<u64>, b: Option<u64>) -> bool {
    match a {
        None => true,
        Some(x) => match b {
            None => false,
            Some(y) => x <= y,
        },
    }
}

/// What one commit — successful or failing — may leave as the checkpoint,
/// starting from `before`: either nothing changed, or it advanced to
/// `checkpoint_after(before, v)` for the value `v` the commit carried.
pub open spec fn checkpoint_step(before: Option<u64>, after: Option<u64>) -> bool {
    after == before || exists|v: u64| after == Some(#[trigger] checkpoint_after(before, v))
}

/// One permitted step never moves the checkpoint backwards, and order is
/// carried along.
proof fn lemma_checkpoint_le_from(cps: Seq<Option<u64>>, i: int, j: int)
    requires
        forall|k: int| 0 <= k < cps.len() - 1 ==> checkpoint_step(#[trigger] cps[k], cps[k + 1]),
        0 <= i <= j < cps.len(),
    ensures
        checkpoint_le(cps[i], cps[j]),
    decreases j - i,
{
    if i < j {
        lemma_checkpoint_le_from(cps, i, j - 1);
        assert(checkpoint_step(cps[j - 1], cps[j]));
        if cps[j] != cps[j - 1] {
            let v = choose|v: u64| cps[j] == Some(#[trigger] checkpoint_after(cps[j - 1], v));
            assert(checkpoint_le(cps[j - 1], cps[j]));
        }
    }
}

/// Law (no regression): along any run of checkpoint values in which each
/// is what some commit may leave of the one before it — runs with crashes
/// and restarts injected anywhere included, since a failing commit leaves
/// the checkpoint untouched — the checkpoint never decreases.
pub proof fn lemma_no_checkpoint_regression(cps: Seq<Option<u64>>)
    requires
        forall|k: int| 0 <= k < cps.len() - 1 ==> checkpoint_step(#[trigger] cps[k], cps[k + 1]),
    ensures
        forall|i: int, j: int| 0 <= i <= j < cps.len() ==> checkpoint_le(cps[i], cps[j]),
{
    assert forall|i: int, j: int| 0 <= i <= j < cps.len() implies checkpoint_le(
        cps[i],
        cps[j],
    ) by {
        lemma_checkpoint_le_from(cps, i, j);
    }
}

/// Durable state of one indexing stream: its event rows and its checkpoint.
pub struct CheckpointStore {
    key: ChainContractKey,
    events: Vec<StakeEvent>,
    checkpoint: Option<u64>,
    fail_next_commit: bool,
}

impl CheckpointStore {
    /// The stored rows, in insertion order.
    pub closed spec fn rows(&self) -> Seq<StakeEvent> {
        self.events@
    }

    /// The ledger held by the store: rows keyed by their natural key.
    pub closed spec fn ledger(&self) -> Map<EventKey, EventView> {
        event_map_of(views_of(self.events@))
    }

    /// Last fully processed block; `None` means "never indexed".
    pub closed spec fn checkpoint_spec(&self) -> Option<u64> {
        self.checkpoint
    }

    /// Whether the next commit has been set up to fail.
    pub closed spec fn failing(&self) -> bool {
        self.fail_next_commit
    }

    /// The stream this store belongs to.
    pub closed spec fn stream_spec(&self) -> ChainContractKey {
        self.key
    }

    /// No two rows share a natural key.
    pub open spec fn wf(&self) -> bool {
        distinct_keys(views_of(self.rows()))
    }

    /// A fresh store for one stream: no rows, no checkpoint.
    pub fn new(key: ChainContractKey) -> (r: CheckpointStore)
        ensures
            r.wf(),
            r.rows() == Seq::<StakeEvent>::empty(),
            r.ledger() == Map::<EventKey, EventView>::empty(),
            r.checkpoint_spec() is None,
            !r.failing(),
            r.stream_spec() == key,
    {
        let r = CheckpointStore { key, events: Vec::new(), checkpoint: None, fail_next_commit: false };
        proof {
            assert(views_of(r.events@) =~= Seq::<EventView>::empty());
        }
        r
    }

    /// The stream this store belongs to.
    pub fn stream(&self) -> (r: &ChainContractKey)
        ensures
            *r == self.stream_spec(),
    {
        &self.key
    }

    /// Last fully processed block for this stream; absent means "never
    /// indexed", and the caller falls back to the configured start block.
    pub fn load_checkpoint(&self) -> (r: Option<u64>)
        ensures
            r == self.checkpoint_spec(),
    {
        self.checkpoint
    }

    /// Number of stored rows.
    pub fn row_count(&self) -> (r: usize)
        ensures
            r == self.rows().len(),
    {
        self.events.len()
    }

    /// The stored row at `i`, in insertion order.
    pub fn row_at(&self, i: usize) -> (r: &StakeEvent)
        requires
            i < self.rows().len(),
        ensures
            *r == self.rows()[i as int],
    {
        &self.events[i]
    }

    /// Arrange for the next commit to fail, as a crash at the commit
    /// boundary would make it.
    pub fn inject_commit_fault(&mut self)
        ensures
            final(self).failing(),
            final(self).rows() == old(self).rows(),
            final(self).ledger() == old(self).ledger(),
            final(self).checkpoint_spec() == old(self).checkpoint_spec(),
            final(self).stream_spec() == old(self).stream_spec(),
            final(self).wf() == old(self).wf(),
    {
        self.fail_next_commit = true;
    }

    /// Insert the event under its natural key, replacing the one row that
    /// already holds the key if there is one.
    #[verifier::loop_isolation(false)]
    fn upsert(&mut self, e: StakeEvent)
        requires
            old(self).wf(),
        ensures
            final(self).wf(),
            final(self).ledger() == old(self).ledger().insert(key_of(e@), e@),
            final(self).checkpoint_spec() == old(self).checkpoint_spec(),
            final(self).failing() == old(self).failing(),
            final(self).stream_spec() == old(self).stream_spec(),
    {
        let ghost orig = *self;
        let n = self.events.len();
        let mut i: usize = 0;
        while i < n
            invariant
                *self == orig,
                orig.wf(),
                n == self.events@.len(),
                i <= n,
                forall|j: int| 0 <= j < i ==> key_of(views_of(self.events@)[j]) != key_of(e@),
            decreases n - i,
        {
            let row = &self.events[i];
            if row.chain_id == e.chain_id && row.log_index == e.log_index
                && bytes_eq(&row.tx_hash, &e.tx_hash) {
                proof {
                    assert(key_of(views_of(self.events@)[i as int]) == key_of(e@));
                    lemma_event_map_update(views_of(self.events@), i as int, e@);
                }
                self.events.set(i, e);
                proof {
                    assert(views_of(self.events@) =~= views_of(orig.events@).update(
                        i as int,
                        e@,
                    ));
                    assert(self.wf()) by {
                        let s = views_of(self.events@);
                        let t = views_of(orig.events@);
                        assert forall|a: int, b: int| 0 <= a < b < s.len() implies key_of(
                            s[a],
                        ) != key_of(s[b]) by {
                            assert(key_of(s[a]) == key_of(t[a]));
                            assert(key_of(s[b]) == key_of(t[b]));
                        }
                    }
                }
                return ;
            }
            i += 1;
        }
        proof {
            lemma_event_map_push(views_of(self.events@), e@);
        }
        self.events.push(e);
        proof {
            assert(views_of(self.events@) =~= views_of(orig.events@).push(e@));
            assert(self.wf()) by {
                let s = views_of(self.events@);
                let t = views_of(orig.events@);
                assert forall|a: int, b: int| 0 <= a < b < s.len() implies key_of(s[a])
                    != key_of(s[b]) by {
                    if b < s.len() - 1 {
                        assert(key_of(s[a]) == key_of(t[a]));
                        assert(key_of(s[b]) == key_of(t[b]));
                    } else {
                        assert(key_of(s[a]) == key_of(t[a]));
                        assert(s[b] == e@);
                    }
                }
            }
        }
    }

    /// Atomically write a batch of events and advance the checkpoint.
    ///
    /// Either every event of the batch is written — upserted on its natural
    /// key, so committing the same batch again never duplicates a row — and
    /// the checkpoint advances to `new_checkpoint` (never regressing), or
    /// nothing changes at all and the error is returned. Across any
    /// sequence of commits, failing or not, the checkpoint never decreases.
    pub fn commit(&mut self, batch: &Vec<StakeEvent>, new_checkpoint: u64) -> (r: Result<
        (),
        StoreError,
    >)
        requires
            old(self).wf(),
        ensures
            final(self).wf(),
            final(self).stream_spec() == old(self).stream_spec(),
            !final(self).failing(),
            r is Err <==> old(self).failing(),
            r is Ok ==> final(self).ledger() == old(self).ledger().union_prefer_right(
                event_map_of(views_of(batch@)),
            ),
            r is Ok ==> final(self).checkpoint_spec() == Some(
                checkpoint_after(old(self).checkpoint_spec(), new_checkpoint),
            ),
            r is Err ==> final(self).rows() == old(self).rows(),
            r is Err ==> final(self).ledger() == old(self).ledger(),
            r is Err ==> final(self).checkpoint_spec() == old(self).checkpoint_spec(),
            checkpoint_step(old(self).checkpoint_spec(), final(self).checkpoint_spec()),
            checkpoint_le(old(self).checkpoint_spec(), final(self).checkpoint_spec()),
    {
        if self.fail_next_commit {
            self.fail_next_commit = false;
            return Err(StoreError::CommitFailed);
        }
        let ghost orig = *self;
        let mut j: usize = 0;
        proof {
            assert(views_of(batch@.take(0)) =~= Seq::<EventView>::empty());
            assert(orig.ledger().union_prefer_right(event_map_of(views_of(batch@.take(0))))
                =~= orig.ledger());
        }
        while j < batch.len()
            invariant
                j <= batch@.len(),
                self.wf(),
                self.ledger() == orig.ledger().union_prefer_right(
                    event_map_of(views_of(batch@.take(j as int))),
                ),
                self.checkpoint_spec() == orig.checkpoint_spec(),
                self.failing() == orig.failing(),
                self.stream_spec() == orig.stream_spec(),
                !orig.failing(),
            decreases batch@.len() - j,
        {
            let ghost prefix = views_of(batch@.take(j as int));
            self.upsert(copy_event(&batch[j]));
            j += 1;
            proof {
                let next = views_of(batch@.take(j as int));
                assert(batch@.take(j as int).drop_last() =~= batch@.take(j as int - 1));
                assert(next =~= prefix.push(batch@[j - 1]@));
                lemma_event_map_push(prefix, batch@[j - 1]@);
                assert(orig.ledger().union_prefer_right(event_map_of(prefix)).insert(
                    key_of(batch@[j - 1]@),
                    batch@[j - 1]@,
                ) =~= orig.ledger().union_prefer_right(event_map_of(next)));
            }
        }
        proof {
            assert(batch@.take(batch@.len() as int) =~= batch@);
        }
        let advanced = match self.checkpoint {
            None => new_checkpoint,
            Some(c) => if c >= new_checkpoint {
                c
            } else {
                new_checkpoint
            },
        };
        self.checkpoint = Some(advanced);
        Ok(())
    }
}

} // verus!
