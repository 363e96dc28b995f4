//! What holds of the counts on their way from the workers into the database.
use vstd::prelude::*;

use crate::accumulator;
use crate::accumulator::ACCUMULATOR_FLUSH_LIMIT;
use crate::le;
use crate::stats::StatsView;
use crate::store;

verus! {

/// Where the counts are: in the database, in the tally, and in the tallies that were handed out
/// and are being written. The counters are those of the server.
#[verifier::ext_equal]
pub struct Ledger {
    pub db: Map<Seq<u8>, Seq<u8>>,
    pub tally: Map<Seq<u8>, u32>,
    pub taken: Seq<Map<Seq<u8>, u32>>,
    pub stats: StatsView,
}

/// A chunk that came in: its patterns, the length of its payload, the worker, and the file that
/// it ends, -1 where it ends none.
pub struct Arrival {
    pub patterns: Seq<(Seq<char>, u32)>,
    pub payload_len: int,
    pub colab: Seq<char>,
    pub path: int,
}

/// What happens to the counts.
pub enum Event {
    /// A chunk comes in and is counted; its patterns are added to the tally, which is handed out
    /// where it is full.
    Added(Arrival),
    /// The tally is handed out to be written.
    Taken,
    /// Of a tally that was handed out, the count of one key is merged into the database.
    Merged(int, Seq<u8>),
    /// A round of the flusher: the tally is handed out and written whole, and the number of
    /// patterns in the database is noted.
    Round,
}

/// What the tallies that were handed out hold for a key.
pub open spec fn in_hand(taken: Seq<Map<Seq<u8>, u32>>, key: Seq<u8>) -> nat
    decreases taken.len(),
{
    if taken.len() == 0 {
        0
    } else {
        in_hand(taken.drop_last(), key) + accumulator::tally_of(taken.last(), key)
    }
}

impl Ledger {
    /// What is counted for a key in all places together.
    pub open spec fn count(self, key: Seq<u8>) -> nat {
        store::stored_count(store::value_of(self.db, key)) + accumulator::tally_of(self.tally, key)
            + in_hand(self.taken, key)
    }

    /// The ledger after the tally was handed out.
    pub open spec fn handed_out(self) -> Ledger {
        Ledger { tally: Map::empty(), taken: self.taken.push(self.tally), ..self }
    }

    /// The ledger after a chunk came in.
    pub open spec fn added(self, chunk: Arrival) -> Ledger {
        let more = Ledger {
            tally: accumulator::merged(self.tally, chunk.patterns),
            stats: self.stats.recorded(chunk.payload_len, chunk.colab, chunk.path),
            ..self
        };
        if more.tally.len() >= ACCUMULATOR_FLUSH_LIMIT {
            more.handed_out()
        } else {
            more
        }
    }

    /// The ledger after one count of a tally that was handed out was merged into the database.
    pub open spec fn merged(self, i: int, key: Seq<u8>) -> Ledger {
        if 0 <= i < self.taken.len() && self.taken[i].contains_key(key) {
            let sum = store::stored_count(store::value_of(self.db, key))
                + self.taken[i][key] as nat;
            Ledger {
                db: self.db.insert(key, le::le_bytes(sum, 4)),
                taken: self.taken.update(i, self.taken[i].remove(key)),
                ..self
            }
        } else {
            self
        }
    }

    /// The ledger after a round of the flusher.
    pub open spec fn rounded(self) -> Ledger {
        let db = store::flushed(self.db, self.tally);
        Ledger {
            db,
            tally: Map::empty(),
            taken: self.taken,
            stats: StatsView { unique_patterns: db.len() as int, ..self.stats },
        }
    }

    /// The ledger after an event.
    pub open spec fn after(self, event: Event) -> Ledger {
        match event {
            Event::Added(chunk) => self.added(chunk),
            Event::Taken => self.handed_out(),
            Event::Merged(i, key) => self.merged(i, key),
            Event::Round => self.rounded(),
        }
    }

    /// The ledger after a course of events.
    pub open spec fn after_all(self, events: Seq<Event>) -> Ledger
        decreases events.len(),
    {
        if events.len() == 0 {
            self
        } else {
            self.after_all(events.drop_last()).after(events.last())
        }
    }
}

/// What an event brings in for a key.
pub open spec fn brought(event: Event, key: Seq<u8>) -> nat {
    match event {
        Event::Added(chunk) => accumulator::total_for(chunk.patterns, key),
        _ => 0,
    }
}

/// What a course of events brings in for a key.
pub open spec fn brought_in(events: Seq<Event>, key: Seq<u8>) -> nat
    decreases events.len(),
{
    if events.len() == 0 {
        0
    } else {
        brought_in(events.drop_last(), key) + brought(events.last(), key)
    }
}

proof fn lemma_in_hand_push(
    taken: Seq<Map<Seq<u8>, u32>>,
    tally: Map<Seq<u8>, u32>,
    key: Seq<u8>,
)
    ensures
        in_hand(taken.push(tally), key) == in_hand(taken, key) + accumulator::tally_of(tally, key),
{
    assert(taken.push(tally).drop_last() =~= taken);
}

proof fn lemma_in_hand_update(
    taken: Seq<Map<Seq<u8>, u32>>,
    i: int,
    tally: Map<Seq<u8>, u32>,
    key: Seq<u8>,
)
    requires
        0 <= i < taken.len(),
    ensures
        in_hand(taken.update(i, tally), key) + accumulator::tally_of(taken[i], key) == in_hand(
            taken,
            key,
        ) + accumulator::tally_of(tally, key),
    decreases taken.len(),
{
    let after = taken.update(i, tally);
    if i == taken.len() - 1 {
        assert(after.drop_last() =~= taken.drop_last());
    } else {
        lemma_in_hand_update(taken.drop_last(), i, tally, key);
        assert(after.drop_last() =~= taken.drop_last().update(i, tally));
    }
}

/// No event loses a count or counts anything twice: what is counted for a key grows by what the
/// event brings in for it, and is the same after every other event.
pub proof fn law_event_keeps_counts(ledger: Ledger, event: Event, key: Seq<u8>)
    requires
        ledger.count(key) + brought(event, key) <= u32::MAX,
    ensures
        ledger.after(event).count(key) == ledger.count(key) + brought(event, key),
{
    match event {
        Event::Added(chunk) => {
            let tally = accumulator::merged(ledger.tally, chunk.patterns);
            accumulator::lemma_merged_at(ledger.tally, chunk.patterns, key);
            lemma_in_hand_push(ledger.taken, tally, key);
        },
        Event::Taken => {
            lemma_in_hand_push(ledger.taken, ledger.tally, key);
        },
        Event::Merged(i, k) => {
            if 0 <= i < ledger.taken.len() && ledger.taken[i].contains_key(k) {
                lemma_in_hand_update(ledger.taken, i, ledger.taken[i].remove(k), key);
                if k == key {
                    store::law_merge_adds(store::value_of(ledger.db, k), ledger.taken[i][k]);
                }
            }
        },
        Event::Round => {
            store::law_flushed_counts(ledger.db, ledger.tally, key);
        },
    }
}

/// Over any number of rounds, with patterns coming in and full tallies being written in between
/// and in any order, no count is lost and none is counted twice: what is counted for a key is
/// what was counted at first and all that came in for it.
pub proof fn law_no_count_is_lost(ledger: Ledger, events: Seq<Event>, key: Seq<u8>)
    requires
        ledger.count(key) + brought_in(events, key) <= u32::MAX,
    ensures
        ledger.after_all(events).count(key) == ledger.count(key) + brought_in(events, key),
    decreases events.len(),
{
    if events.len() > 0 {
        law_no_count_is_lost(ledger, events.drop_last(), key);
        law_event_keeps_counts(ledger.after_all(events.drop_last()), events.last(), key);
    }
}

/// A round of the flusher leaves the tally empty and the database as the entries of the tally,
/// written one after the other, leave it. What the tally held for a key is in the database then,
/// on top of what was there. The number of patterns in the database is noted, and no other counter
/// changes.
pub proof fn law_round_moves_the_tally(
    ledger: Ledger,
    entries: Seq<(Vec<u8>, u32)>,
    key: Seq<u8>,
)
    requires
        accumulator::lists(entries, ledger.tally),
        store::stored_count(store::value_of(ledger.db, key)) + accumulator::tally_of(
            ledger.tally,
            key,
        ) <= u32::MAX,
    ensures
        ledger.rounded().tally == Map::<Seq<u8>, u32>::empty(),
        ledger.rounded().taken == ledger.taken,
        ledger.rounded().db == store::written(ledger.db, entries),
        store::stored_count(store::value_of(ledger.rounded().db, key)) == store::stored_count(
            store::value_of(ledger.db, key),
        ) + accumulator::tally_of(ledger.tally, key),
        ledger.rounded().stats == (StatsView {
            unique_patterns: ledger.rounded().db.len() as int,
            ..ledger.stats
        }),
{
    store::law_flush_adds_the_tally(ledger.db, entries, ledger.tally);
    store::law_flushed_counts(ledger.db, ledger.tally, key);
}

/// However the counts came in, each round settles them: where no tally in hand holds anything for a
/// key, the database counts for it after the round what was counted at first and all that came
/// in. The tally is empty then, and the number of patterns in the database is noted.
pub proof fn law_each_round_settles_the_counts(ledger: Ledger, events: Seq<Event>, key: Seq<u8>)
    requires
        ledger.count(key) + brought_in(events, key) <= u32::MAX,
        in_hand(ledger.after_all(events).taken, key) == 0,
    ensures
        ({
            let settled = ledger.after_all(events.push(Event::Round));
            &&& store::stored_count(store::value_of(settled.db, key)) == ledger.count(key)
                + brought_in(events, key)
            &&& settled.tally == Map::<Seq<u8>, u32>::empty()
            &&& settled.stats.unique_patterns == settled.db.len()
        }),
{
    assert(events.push(Event::Round).drop_last() =~= events);
    law_no_count_is_lost(ledger, events, key);
    law_event_keeps_counts(ledger.after_all(events), Event::Round, key);
}

/// Every round, in whatever course of events it stands, leaves the tally empty and each key with
/// its old count in the database and what the tally held for it. Then the number of patterns in
/// the database is noted; no other counter changes, and no tally in hand.
pub proof fn law_every_round_of_a_course(
    ledger: Ledger,
    events: Seq<Event>,
    k: int,
    key: Seq<u8>,
)
    requires
        0 <= k < events.len(),
        events[k] is Round,
        ledger.count(key) + brought_in(events.take(k), key) <= u32::MAX,
    ensures
        ({
            let before = ledger.after_all(events.take(k));
            let after = ledger.after_all(events.take(k + 1));
            &&& after.tally == Map::<Seq<u8>, u32>::empty()
            &&& store::stored_count(store::value_of(after.db, key)) == store::stored_count(
                store::value_of(before.db, key),
            ) + accumulator::tally_of(before.tally, key)
            &&& after.count(key) == before.count(key)
            &&& after.taken == before.taken
            &&& after.stats == (StatsView {
                unique_patterns: after.db.len() as int,
                ..before.stats
            })
        }),
{
    let before = ledger.after_all(events.take(k));
    assert(events.take(k + 1).drop_last() =~= events.take(k));
    assert(events.take(k + 1).last() == events[k]);
    law_no_count_is_lost(ledger, events.take(k), key);
    law_event_keeps_counts(before, Event::Round, key);
    store::law_flushed_counts(before.db, before.tally, key);
}

} // verus!
