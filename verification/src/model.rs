//! The mathematical model of an event ledger.
//!
//! A ledger is modelled as a map from the natural event key — (chain id,
//! transaction hash, log index) — to the event stored under it. Building the
//! map from a sequence of events makes a later event with the same key win,
//! which is exactly the upsert semantics the store implements.

use vstd::prelude::*;

use crate::types::{EventView, StakeEvent};

verus! {

/// The natural key of an event row: (chain id, transaction hash, log index).
/// Re-ingesting a log with a key already present must not create a second
/// row.
pub type EventKey = (u64, Seq<u8>, u64);

/// The natural key of an event.
pub open spec fn key_of(e: EventView) -> EventKey {
    (e.chain_id, e.tx_hash, e.log_index)
}

/// The mathematical values of a sequence of stored events.
pub open spec fn views_of(s: Seq<StakeEvent>) -> Seq<EventView> {
    s.map_values(|e: StakeEvent| e@)
}

/// Views distribute over concatenation.
pub proof fn lemma_views_concat(s: Seq<StakeEvent>, t: Seq<StakeEvent>)
    ensures
        views_of(s + t) == views_of(s) + views_of(t),
{
    assert(views_of(s + t) =~= views_of(s) + views_of(t));
}

/// No two events of the sequence share a natural key.
pub open spec fn distinct_keys(s: Seq<EventView>) -> bool {
    forall|i: int, j: int| 0 <= i < j < s.len() ==> key_of(s[i]) != key_of(s[j])
}

/// The ledger described by a sequence of events: each event is keyed by its
/// natural key, and a later occurrence of a key replaces an earlier one.
pub open spec fn event_map_of(s: Seq<EventView>) -> Map<EventKey, EventView>
    decreases s.len(),
{
    if s.len() == 0 {
        Map::empty()
    } else {
        event_map_of(s.drop_last()).insert(key_of(s.last()), s.last())
    }
}

/// Appending an event inserts it into the ledger under its key.
pub proof fn lemma_event_map_push(s: Seq<EventView>, e: EventView)
    ensures
        event_map_of(s.push(e)) == event_map_of(s).insert(key_of(e), e),
{
    assert(s.push(e).drop_last() =~= s);
    assert(s.push(e).last() == e);
}

/// Replacing the one event that holds a key updates the ledger under that
/// key, exactly as inserting the replacement would.
pub proof fn lemma_event_map_update(s: Seq<EventView>, i: int, e: EventView)
    requires
        0 <= i < s.len(),
        distinct_keys(s),
        key_of(s[i]) == key_of(e),
    ensures
        event_map_of(s.update(i, e)) == event_map_of(s).insert(key_of(e), e),
    decreases s.len(),
{
    let t = s.update(i, e);
    if i == s.len() - 1 {
        assert(t.drop_last() =~= s.drop_last());
        assert(t.last() == e);
        assert(event_map_of(s.drop_last()).insert(key_of(s.last()), s.last()).insert(
            key_of(e),
            e,
        ) =~= event_map_of(s.drop_last()).insert(key_of(e), e));
    } else {
        assert(t.drop_last() =~= s.drop_last().update(i, e));
        assert(t.last() == s.last());
        assert(distinct_keys(s.drop_last())) by {
            assert(forall|a: int, b: int|
                0 <= a < b < s.drop_last().len() ==> key_of(s.drop_last()[a]) != key_of(
                    s.drop_last()[b],
                )) by {
                assert(forall|a: int|
                    0 <= a < s.drop_last().len() ==> s.drop_last()[a] == s[a]);
            }
        }
        assert(s.drop_last()[i] == s[i]);
        lemma_event_map_update(s.drop_last(), i, e);
        assert(key_of(s[i]) != key_of(s.last()));
        assert(event_map_of(s.drop_last()).insert(key_of(e), e).insert(
            key_of(s.last()),
            s.last(),
        ) =~= event_map_of(s.drop_last()).insert(key_of(s.last()), s.last()).insert(
            key_of(e),
            e,
        ));
    }
}

/// The ledger of a concatenation is the union of the two ledgers, with the
/// right-hand side winning on shared keys.
pub proof fn lemma_event_map_concat(s: Seq<EventView>, t: Seq<EventView>)
    ensures
        event_map_of(s + t) == event_map_of(s).union_prefer_right(event_map_of(t)),
    decreases t.len(),
{
    if t.len() == 0 {
        assert(s + t =~= s);
        assert(event_map_of(s).union_prefer_right(event_map_of(t)) =~= event_map_of(s));
    } else {
        lemma_event_map_concat(s, t.drop_last());
        assert((s + t).drop_last() =~= s + t.drop_last());
        assert((s + t).last() == t.last());
        assert(event_map_of(s).union_prefer_right(event_map_of(t.drop_last())).insert(
            key_of(t.last()),
            t.last(),
        ) =~= event_map_of(s).union_prefer_right(
            event_map_of(t.drop_last()).insert(key_of(t.last()), t.last()),
        ));
    }
}

/// Every event of the sequence has its key in the ledger.
pub proof fn lemma_event_map_covers(s: Seq<EventView>, i: int)
    requires
        0 <= i < s.len(),
    ensures
        event_map_of(s).dom().contains(key_of(s[i])),
    decreases s.len(),
{
    if i < s.len() - 1 {
        lemma_event_map_covers(s.drop_last(), i);
        assert(s.drop_last()[i] == s[i]);
    }
}

/// Every key of the ledger comes from some event of the sequence.
pub proof fn lemma_event_map_dom(s: Seq<EventView>, k: EventKey)
    requires
        event_map_of(s).dom().contains(k),
    ensures
        exists|i: int| 0 <= i < s.len() && key_of(#[trigger] s[i]) == k,
    decreases s.len(),
{
    if s.len() > 0 {
        if key_of(s.last()) == k {
            assert(key_of(s[s.len() - 1]) == k);
        } else {
            lemma_event_map_dom(s.drop_last(), k);
            let i = choose|i: int|
                0 <= i < s.drop_last().len() && key_of(#[trigger] s.drop_last()[i]) == k;
            assert(key_of(s[i]) == k);
        }
    }
}

/// When keys are distinct, the ledger stores each event unchanged under
/// its key.
pub proof fn lemma_event_map_at(s: Seq<EventView>, i: int)
    requires
        0 <= i < s.len(),
        distinct_keys(s),
    ensures
        event_map_of(s).dom().contains(key_of(s[i])),
        event_map_of(s)[key_of(s[i])] == s[i],
    decreases s.len(),
{
    lemma_event_map_covers(s, i);
    if i < s.len() - 1 {
        assert(distinct_keys(s.drop_last())) by {
            assert(forall|a: int| 0 <= a < s.drop_last().len() ==> s.drop_last()[a] == s[a]);
        }
        assert(s.drop_last()[i] == s[i]);
        lemma_event_map_at(s.drop_last(), i);
        assert(key_of(s[i]) != key_of(s.last()));
    }
}

} // verus!
