//! The counts that the database holds: four little-endian bytes per pattern.
use vstd::prelude::*;

use crate::accumulator;
use crate::le;

verus! {

/// The count in a stored value. A missing value, or one shorter than four bytes, counts as
/// zero; bytes past the fourth are ignored.
pub open spec fn stored_count(value: Option<Seq<u8>>) -> nat {
    match value {
        Some(bytes) => if bytes.len() >= 4 {
            le::le_value(bytes.subrange(0, 4))
        } else {
            0
        },
        None => 0,
    }
}

/// The view of a value that may be missing.
pub open spec fn value_view(value: Option<&[u8]>) -> Option<Seq<u8>> {
    match value {
        Some(bytes) => Some(bytes@),
        None => None,
    }
}

/// Reads the count in a stored value.
pub fn read_count(value: Option<&[u8]>) -> (count: u32)
    ensures
        count == stored_count(value_view(value)),
{
    match value {
        Some(bytes) => if bytes.len() >= 4 {
            le::get_le32(bytes)
        } else {
            0
        },
        None => 0,
    }
}

/// The value that replaces `old` when `added` more sightings are written.
pub fn merged_value(old: Option<&[u8]>, added: u32) -> (value: Vec<u8>)
    requires
        stored_count(value_view(old)) + added <= u32::MAX,
    ensures
        value@ == le::le_bytes(stored_count(value_view(old)) + added as nat, 4),
        value@.len() == 4,
        value@[0] + 0x100 * value@[1] + 0x1_0000 * value@[2] + 0x100_0000 * value@[3]
            == stored_count(value_view(old)) + added,
{
    let mut value: Vec<u8> = Vec::new();
    let sum = read_count(old) + added;
    le::put_le(&mut value, sum as u64, 4);
    assert(value@ =~= le::le_bytes(sum as nat, 4));
    proof {
        le::lemma_le_capacities();
        le::law_le_round_trip(sum as nat, 4);
        le::law_le_value_of_four(value@);
    }
    value
}

/// A stored value counts what its first four bytes say, lowest byte first, whatever follows them.
/// A shorter value counts nothing, and so does a missing one.
pub proof fn law_stored_count_reads_four_bytes(value: Seq<u8>)
    ensures
        value.len() >= 4 ==> stored_count(Some(value)) == value[0] + 0x100 * value[1] + 0x1_0000
            * value[2] + 0x100_0000 * value[3],
        value.len() < 4 ==> stored_count(Some(value)) == 0,
        stored_count(None) == 0,
{
    if value.len() >= 4 {
        le::law_le_value_of_four(value.subrange(0, 4));
    }
}

/// A value that was written reads back as the old count plus what was added.
pub proof fn law_merge_adds(old: Option<Seq<u8>>, added: u32)
    requires
        stored_count(old) + added <= u32::MAX,
    ensures
        stored_count(Some(le::le_bytes(stored_count(old) + added as nat, 4))) == stored_count(old)
            + added,
{
    let sum = stored_count(old) + added as nat;
    le::lemma_le_len(sum, 4);
    le::lemma_le_capacities();
    le::law_le_round_trip(sum, 4);
    assert(le::le_bytes(sum, 4).subrange(0, 4) =~= le::le_bytes(sum, 4));
}

/// Counts that are written one after the other add up, in whatever order.
pub proof fn law_merges_commute(old: Option<Seq<u8>>, a: u32, b: u32)
    requires
        stored_count(old) + a + b <= u32::MAX,
    ensures
        ({
            let with_a = Some(le::le_bytes(stored_count(old) + a as nat, 4));
            let with_b = Some(le::le_bytes(stored_count(old) + b as nat, 4));
            &&& le::le_bytes(stored_count(with_a) + b as nat, 4) == le::le_bytes(
                stored_count(with_b) + a as nat,
                4,
            )
            &&& stored_count(Some(le::le_bytes(stored_count(with_a) + b as nat, 4)))
                == stored_count(old) + a + b
        }),
{
    law_merge_adds(old, a);
    law_merge_adds(old, b);
    law_merge_adds(Some(le::le_bytes(stored_count(old) + a as nat, 4)), b);
}

/// The stored value of a key, where it has one.
pub open spec fn value_of(db: Map<Seq<u8>, Seq<u8>>, key: Seq<u8>) -> Option<Seq<u8>> {
    if db.contains_key(key) {
        Some(db[key])
    } else {
        None
    }
}

/// The database after each entry of a tally was merged into the value of its key, one after the
/// other.
pub open spec fn written(
    db: Map<Seq<u8>, Seq<u8>>,
    entries: Seq<(Vec<u8>, u32)>,
) -> Map<Seq<u8>, Seq<u8>>
    decreases entries.len(),
{
    if entries.len() == 0 {
        db
    } else {
        let before = written(db, entries.drop_last());
        let (key, added) = entries.last();
        before.insert(key@, le::le_bytes(stored_count(value_of(before, key@)) + added as nat, 4))
    }
}

/// The database after a tally was written to it: the key of each count holds the sum of what it
/// held and that count, and every other key what it held.
pub open spec fn flushed(
    db: Map<Seq<u8>, Seq<u8>>,
    tally: Map<Seq<u8>, u32>,
) -> Map<Seq<u8>, Seq<u8>> {
    Map::new(
        |key: Seq<u8>| db.contains_key(key) || tally.contains_key(key),
        |key: Seq<u8>|
            if tally.contains_key(key) {
                le::le_bytes(stored_count(value_of(db, key)) + tally[key] as nat, 4)
            } else {
                db[key]
            },
    )
}

/// The value of a key changes only where an entry names it.
proof fn lemma_written_elsewhere(
    db: Map<Seq<u8>, Seq<u8>>,
    entries: Seq<(Vec<u8>, u32)>,
    key: Seq<u8>,
)
    requires
        forall|i: int| 0 <= i < entries.len() ==> (#[trigger] entries[i]).0@ != key,
    ensures
        value_of(written(db, entries), key) == value_of(db, key),
    decreases entries.len(),
{
    if entries.len() > 0 {
        let before = entries.drop_last();
        assert forall|i: int| 0 <= i < before.len() implies (#[trigger] before[i]).0@ != key by {
            assert(before[i] == entries[i]);
        }
        lemma_written_elsewhere(db, before, key);
        assert(entries[entries.len() - 1].0@ != key);
    }
}

/// The value of a key that one entry alone names.
proof fn lemma_written_at(db: Map<Seq<u8>, Seq<u8>>, entries: Seq<(Vec<u8>, u32)>, i: int)
    requires
        0 <= i < entries.len(),
        forall|j: int|
            0 <= j < entries.len() && j != i ==> (#[trigger] entries[j]).0@ != entries[i].0@,
    ensures
        value_of(written(db, entries), entries[i].0@) == Some(
            le::le_bytes(
                stored_count(value_of(db, entries[i].0@)) + entries[i].1 as nat,
                4,
            ),
        ),
    decreases entries.len(),
{
    let before = entries.drop_last();
    let last = entries.len() - 1;
    if i == last {
        assert forall|j: int| 0 <= j < before.len() implies (#[trigger] before[j]).0@
            != entries[i].0@ by {
            assert(before[j] == entries[j]);
        }
        lemma_written_elsewhere(db, before, entries[i].0@);
    } else {
        assert forall|j: int| 0 <= j < before.len() && j != i implies (#[trigger] before[j]).0@
            != before[i].0@ by {
            assert(before[j] == entries[j]);
        }
        lemma_written_at(db, before, i);
        assert(entries[last].0@ != entries[i].0@);
    }
}

/// Writing the entries of a tally to the database, in whatever order they come, leaves each key of
/// the tally with exactly the four bytes of its old count plus what the tally holds for it. Every
/// other key keeps its bytes, and no key is taken out.
pub proof fn law_flush_adds_the_tally(
    db: Map<Seq<u8>, Seq<u8>>,
    entries: Seq<(Vec<u8>, u32)>,
    tally: Map<Seq<u8>, u32>,
)
    requires
        accumulator::lists(entries, tally),
    ensures
        written(db, entries) == flushed(db, tally),
{
    let after = written(db, entries);
    assert forall|key: Seq<u8>|
        #[trigger] value_of(after, key) == value_of(flushed(db, tally), key) by {
        if tally.contains_key(key) {
            let i = choose|i: int| 0 <= i < entries.len() && (#[trigger] entries[i]).0@ == key;
            assert forall|j: int| 0 <= j < entries.len() && j != i implies (
            #[trigger] entries[j]).0@ != entries[i].0@ by {
                if j < i {
                    assert(entries[j].0@ != entries[i].0@);
                } else {
                    assert(entries[i].0@ != entries[j].0@);
                }
            }
            lemma_written_at(db, entries, i);
        } else {
            assert forall|j: int| 0 <= j < entries.len() implies (#[trigger] entries[j]).0@
                != key by {
                assert(tally.contains_key(entries[j].0@));
            }
            lemma_written_elsewhere(db, entries, key);
        }
    }
    assert forall|key: Seq<u8>| #[trigger]
        after.contains_key(key) == flushed(db, tally).contains_key(key) && (after.contains_key(key)
            ==> after[key] == flushed(db, tally)[key]) by {
        assert(value_of(after, key) == value_of(flushed(db, tally), key));
    }
    assert(after =~= flushed(db, tally));
}

/// Once a tally is written, each key counts what it counted before and what the tally held for it.
pub proof fn law_flushed_counts(
    db: Map<Seq<u8>, Seq<u8>>,
    tally: Map<Seq<u8>, u32>,
    key: Seq<u8>,
)
    requires
        stored_count(value_of(db, key)) + accumulator::tally_of(tally, key) <= u32::MAX,
    ensures
        stored_count(value_of(flushed(db, tally), key)) == stored_count(value_of(db, key))
            + accumulator::tally_of(tally, key),
{
    if tally.contains_key(key) {
        law_merge_adds(value_of(db, key), tally[key]);
    }
}

/// Two tallies as one.
pub open spec fn summed(a: Map<Seq<u8>, u32>, b: Map<Seq<u8>, u32>) -> Map<Seq<u8>, u32> {
    Map::new(
        |key: Seq<u8>| a.contains_key(key) || b.contains_key(key),
        |key: Seq<u8>|
            (accumulator::tally_of(a, key) + accumulator::tally_of(b, key)) as u32,
    )
}

/// Two tallies can be written one after the other, in either order, or as one: the database is
/// the same in the end.
pub proof fn law_flushes_commute(
    db: Map<Seq<u8>, Seq<u8>>,
    a: Seq<(Vec<u8>, u32)>,
    b: Seq<(Vec<u8>, u32)>,
    both: Seq<(Vec<u8>, u32)>,
    tally_a: Map<Seq<u8>, u32>,
    tally_b: Map<Seq<u8>, u32>,
)
    requires
        accumulator::lists(a, tally_a),
        accumulator::lists(b, tally_b),
        accumulator::lists(both, summed(tally_a, tally_b)),
        forall|key: Seq<u8>|
            stored_count(#[trigger] value_of(db, key)) + accumulator::tally_of(tally_a, key)
                + accumulator::tally_of(tally_b, key) <= u32::MAX,
    ensures
        written(written(db, a), b) == written(written(db, b), a),
        written(written(db, a), b) == written(db, both),
{
    law_flush_adds_the_tally(db, a, tally_a);
    law_flush_adds_the_tally(db, b, tally_b);
    law_flush_adds_the_tally(written(db, a), b, tally_b);
    law_flush_adds_the_tally(written(db, b), a, tally_a);
    law_flush_adds_the_tally(db, both, summed(tally_a, tally_b));
    let ab = flushed(flushed(db, tally_a), tally_b);
    let ba = flushed(flushed(db, tally_b), tally_a);
    let one = flushed(db, summed(tally_a, tally_b));
    assert forall|key: Seq<u8>| #[trigger] ab.contains_key(key) implies ab[key] == ba[key]
        && ab[key] == one[key] by {
        assert(stored_count(value_of(db, key)) + accumulator::tally_of(tally_a, key)
            + accumulator::tally_of(tally_b, key) <= u32::MAX);
        law_flushed_counts(db, tally_a, key);
        law_flushed_counts(db, tally_b, key);
    }
    assert(ab =~= ba);
    assert(ab =~= one);
}

/// Of entries with different keys, each adds its count to that of its key in the database and
/// leaves four bytes there.
pub proof fn law_each_entry_is_added(
    db: Map<Seq<u8>, Seq<u8>>,
    entries: Seq<(Vec<u8>, u32)>,
    i: int,
)
    requires
        0 <= i < entries.len(),
        forall|j: int|
            0 <= j < entries.len() && j != i ==> (#[trigger] entries[j]).0@ != entries[i].0@,
        stored_count(value_of(db, entries[i].0@)) + entries[i].1 <= u32::MAX,
    ensures
        ({
            let key = entries[i].0@;
            let value = written(db, entries)[key];
            &&& written(db, entries).contains_key(key)
            &&& value.len() == 4
            &&& value[0] + 0x100 * value[1] + 0x1_0000 * value[2] + 0x100_0000 * value[3]
                == stored_count(value_of(db, key)) + entries[i].1
        }),
{
    let key = entries[i].0@;
    let sum = stored_count(value_of(db, key)) + entries[i].1 as nat;
    lemma_written_at(db, entries, i);
    le::lemma_le_len(sum, 4);
    le::lemma_le_capacities();
    le::law_le_round_trip(sum, 4);
    le::law_le_value_of_four(le::le_bytes(sum, 4));
}

/// A key that no entry names keeps its bytes, or stays missing.
pub proof fn law_other_keys_stay(
    db: Map<Seq<u8>, Seq<u8>>,
    entries: Seq<(Vec<u8>, u32)>,
    key: Seq<u8>,
)
    requires
        forall|i: int| 0 <= i < entries.len() ==> (#[trigger] entries[i]).0@ != key,
    ensures
        written(db, entries).contains_key(key) == db.contains_key(key),
        db.contains_key(key) ==> written(db, entries)[key] == db[key],
{
    lemma_written_elsewhere(db, entries, key);
}

/// A stored value is seen by its bytes, and a missing one as missing.
pub proof fn law_values_are_seen_whole(value: &[u8])
    ensures
        value_view(Some(value)) == Some(value@),
        value_view(None) == None::<Seq<u8>>,
{
}

} // verus!
