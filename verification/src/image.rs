//! The compiled pattern image: `[header 24 B][records][footer 16 B]`.
//!
//! The header holds the number of patterns and the number of records in each frequency tier. The
//! records follow tier by tier, and inside a tier in the order of the entries. The footer holds
//! the total size of the keys and the size of all that precedes the footer. A pattern of frequency
//! zero is one of the patterns and its key is one of the keys, but it belongs to no tier.
use std::cmp::Ordering;
use vstd::prelude::*;

use crate::le;
use crate::store;

verus! {

/// A stored pattern and how often it was seen.
#[derive(Clone, Debug, PartialEq, Eq)]
pub struct Entry {
    pub key: Vec<u8>,
    pub freq: u32,
}

impl View for Entry {
    type V = (Seq<u8>, u32);

    open spec fn view(&self) -> (Seq<u8>, u32) {
        (self.key@, self.freq)
    }
}

/// The entries as pairs of key and frequency.
pub open spec fn entry_views(entries: Seq<Entry>) -> Seq<(Seq<u8>, u32)> {
    Seq::new(entries.len(), |i: int| entries[i]@)
}

/// A frequency tier, named after the width of the record numbers in it.
#[derive(Clone, Copy, PartialEq, Eq, Structural, Debug)]
pub enum Tier {
    I8,
    I16,
    I32,
    I64,
    I128,
}

impl Tier {
    /// Bytes that a record number takes in this tier.
    pub open spec fn id_width(self) -> nat {
        match self {
            Tier::I8 => 1,
            Tier::I16 => 2,
            Tier::I32 => 4,
            Tier::I64 => 8,
            Tier::I128 => 16,
        }
    }

    /// The frequencies whose records are written in this tier. A frequency of zero has none.
    pub open spec fn holds(self, freq: u32) -> bool {
        match self {
            Tier::I8 => freq >= 1000,
            Tier::I16 => 100 <= freq < 1000,
            Tier::I32 => 10 <= freq < 100,
            Tier::I64 => 2 <= freq < 10,
            Tier::I128 => freq == 1,
        }
    }

    fn width(self) -> (w: usize)
        ensures
            w == self.id_width(),
    {
        match self {
            Tier::I8 => 1,
            Tier::I16 => 2,
            Tier::I32 => 4,
            Tier::I64 => 8,
            Tier::I128 => 16,
        }
    }

    /// Whether entries of a frequency have their records in this tier.
    pub fn admits(self, freq: u32) -> (r: bool)
        ensures
            r == self.holds(freq),
    {
        match self {
            Tier::I8 => freq >= 1000,
            Tier::I16 => 100 <= freq && freq < 1000,
            Tier::I32 => 10 <= freq && freq < 100,
            Tier::I64 => 2 <= freq && freq < 10,
            Tier::I128 => freq == 1,
        }
    }
}

/// How many entries have a record in `tier`.
pub open spec fn tier_size(entries: Seq<(Seq<u8>, u32)>, tier: Tier) -> nat
    decreases entries.len(),
{
    if entries.len() == 0 {
        0
    } else {
        tier_size(entries.drop_last(), tier) + if tier.holds(entries.last().1) {
            1nat
        } else {
            0nat
        }
    }
}

/// Bytes of a key that a record keeps.
pub open spec fn kept_len(key: Seq<u8>) -> nat {
    if key.len() < 255 {
        key.len()
    } else {
        255
    }
}

/// One record: its number in the tier (as far as the width goes), the length of the kept key,
/// the kept key, the frequency.
pub open spec fn record(number: nat, width: nat, entry: (Seq<u8>, u32)) -> Seq<u8> {
    le::le_bytes(number, width) + seq![kept_len(entry.0) as u8] + entry.0.subrange(
        0,
        kept_len(entry.0) as int,
    ) + le::le_bytes(entry.1 as nat, 4)
}

/// The records of one tier, numbered from zero in the order of the entries.
pub open spec fn tier_records(entries: Seq<(Seq<u8>, u32)>, tier: Tier) -> Seq<u8>
    decreases entries.len(),
{
    if entries.len() == 0 {
        Seq::empty()
    } else {
        let before = entries.drop_last();
        if tier.holds(entries.last().1) {
            tier_records(before, tier) + record(
                tier_size(before, tier),
                tier.id_width(),
                entries.last(),
            )
        } else {
            tier_records(before, tier)
        }
    }
}

/// The total length of the keys.
pub open spec fn key_bytes(entries: Seq<(Seq<u8>, u32)>) -> nat
    decreases entries.len(),
{
    if entries.len() == 0 {
        0
    } else {
        key_bytes(entries.drop_last()) + entries.last().0.len()
    }
}

/// The number of entries, then the number of records in each tier, four bytes each.
pub open spec fn header(entries: Seq<(Seq<u8>, u32)>) -> Seq<u8> {
    le::le_bytes(entries.len(), 4) + le::le_bytes(tier_size(entries, Tier::I8), 4)
        + le::le_bytes(tier_size(entries, Tier::I16), 4) + le::le_bytes(
        tier_size(entries, Tier::I32),
        4,
    ) + le::le_bytes(tier_size(entries, Tier::I64), 4) + le::le_bytes(
        tier_size(entries, Tier::I128),
        4,
    )
}

/// The records of all tiers, from the highest frequencies down.
pub open spec fn records(entries: Seq<(Seq<u8>, u32)>) -> Seq<u8> {
    tier_records(entries, Tier::I8) + tier_records(entries, Tier::I16) + tier_records(
        entries,
        Tier::I32,
    ) + tier_records(entries, Tier::I64) + tier_records(entries, Tier::I128)
}

/// The size of all keys, then the size of header and records, eight bytes each.
pub open spec fn footer(entries: Seq<(Seq<u8>, u32)>) -> Seq<u8> {
    le::le_bytes(key_bytes(entries), 8) + le::le_bytes(
        (header(entries) + records(entries)).len(),
        8,
    )
}

/// The whole image of the entries, in the order given.
pub open spec fn image(entries: Seq<(Seq<u8>, u32)>) -> Seq<u8> {
    header(entries) + records(entries) + footer(entries)
}

/// Higher frequencies come first.
pub open spec fn by_descending_frequency(entries: Seq<(Seq<u8>, u32)>) -> bool {
    forall|i: int, j: int| 0 <= i <= j < entries.len() ==> entries[i].1 >= entries[j].1
}

/// The database rows whose value is a count, as entries: a value shorter than four bytes holds
/// none, and bytes past the fourth are ignored.
pub open spec fn readable(rows: Seq<(Vec<u8>, Vec<u8>)>) -> Seq<(Seq<u8>, u32)>
    decreases rows.len(),
{
    if rows.len() == 0 {
        Seq::empty()
    } else {
        let before = readable(rows.drop_last());
        let (key, value) = rows.last();
        if value@.len() >= 4 {
            before.push((key@, store::stored_count(Some(value@)) as u32))
        } else {
            before
        }
    }
}

proof fn lemma_key_bytes_prefix(entries: Seq<(Seq<u8>, u32)>, i: int)
    requires
        0 <= i <= entries.len(),
    ensures
        key_bytes(entries.subrange(0, i)) <= key_bytes(entries),
    decreases entries.len() - i,
{
    if i < entries.len() {
        lemma_key_bytes_prefix(entries, i + 1);
        assert(entries.subrange(0, i + 1).drop_last() =~= entries.subrange(0, i));
    } else {
        assert(entries.subrange(0, i) =~= entries);
    }
}

/// The sum of a weight over the entries.
pub open spec fn weigh(
    entries: Seq<(Seq<u8>, u32)>,
    weight: spec_fn((Seq<u8>, u32)) -> nat,
) -> nat
    decreases entries.len(),
{
    if entries.len() == 0 {
        0
    } else {
        weigh(entries.drop_last(), weight) + weight(entries.last())
    }
}

proof fn lemma_weigh_remove(
    entries: Seq<(Seq<u8>, u32)>,
    weight: spec_fn((Seq<u8>, u32)) -> nat,
    i: int,
)
    requires
        0 <= i < entries.len(),
    ensures
        weigh(entries, weight) == weigh(entries.remove(i), weight) + weight(entries[i]),
    decreases entries.len(),
{
    if i == entries.len() - 1 {
        assert(entries.remove(i) =~= entries.drop_last());
    } else {
        lemma_weigh_remove(entries.drop_last(), weight, i);
        assert(entries.remove(i).drop_last() =~= entries.drop_last().remove(i));
    }
}

pub proof fn lemma_weigh_rearranged(
    a: Seq<(Seq<u8>, u32)>,
    b: Seq<(Seq<u8>, u32)>,
    weight: spec_fn((Seq<u8>, u32)) -> nat,
)
    requires
        a.to_multiset() == b.to_multiset(),
    ensures
        a.len() == b.len(),
        weigh(a, weight) == weigh(b, weight),
    decreases a.len(),
{
    a.to_multiset_ensures();
    b.to_multiset_ensures();
    if a.len() > 0 {
        let x = a.last();
        assert(a.contains(x));
        assert(b.to_multiset().count(x) > 0);
        let i = choose|i: int| 0 <= i < b.len() && b[i] == x;
        assert(a.remove(a.len() - 1) =~= a.drop_last());
        assert(a.drop_last().to_multiset() =~= b.remove(i).to_multiset());
        lemma_weigh_rearranged(a.drop_last(), b.remove(i), weight);
        lemma_weigh_remove(b, weight, i);
    }
}

spec fn key_weight() -> spec_fn((Seq<u8>, u32)) -> nat {
    |e: (Seq<u8>, u32)| e.0.len()
}

proof fn lemma_key_bytes_weigh(entries: Seq<(Seq<u8>, u32)>)
    ensures
        key_bytes(entries) == weigh(entries, key_weight()),
    decreases entries.len(),
{
    if entries.len() > 0 {
        lemma_key_bytes_weigh(entries.drop_last());
    }
}

pub proof fn lemma_key_bytes_rearranged(a: Seq<(Seq<u8>, u32)>, b: Seq<(Seq<u8>, u32)>)
    requires
        a.to_multiset() == b.to_multiset(),
    ensures
        a.len() == b.len(),
        key_bytes(a) == key_bytes(b),
{
    lemma_key_bytes_weigh(a);
    lemma_key_bytes_weigh(b);
    lemma_weigh_rearranged(a, b, key_weight());
}

/// How many entries have a record in `tier`.
fn count_tier(entries: &Vec<Entry>, tier: Tier) -> (n: u32)
    requires
        entries@.len() <= u32::MAX,
    ensures
        n == tier_size(entry_views(entries@), tier),
{
    let ghost all = entry_views(entries@);
    let mut n: u32 = 0;
    let mut i: usize = 0;
    assert(all.subrange(0, 0) =~= Seq::empty());
    while i < entries.len()
        invariant
            i <= entries@.len(),
            entries@.len() <= u32::MAX,
            all == entry_views(entries@),
            n == tier_size(all.subrange(0, i as int), tier),
            n <= i,
        decreases entries@.len() - i,
    {
        proof {
            assert(all.subrange(0, i + 1).drop_last() =~= all.subrange(0, i as int));
        }
        if tier.admits(entries[i].freq) {
            n = n + 1;
        }
        i = i + 1;
    }
    assert(all.subrange(0, i as int) =~= all);
    n
}

/// Appends the records of one tier.
fn write_tier(out: &mut Vec<u8>, entries: &Vec<Entry>, tier: Tier)
    requires
        entries@.len() <= u32::MAX,
    ensures
        final(out)@ == old(out)@ + tier_records(entry_views(entries@), tier),
{
    let ghost all = entry_views(entries@);
    let width = tier.width();
    let mut number: u32 = 0;
    let mut i: usize = 0;
    assert(all.subrange(0, 0) =~= Seq::empty());
    assert(out@ =~= old(out)@ + tier_records(all.subrange(0, 0), tier));
    while i < entries.len()
        invariant
            i <= entries@.len(),
            entries@.len() <= u32::MAX,
            all == entry_views(entries@),
            width == tier.id_width(),
            number == tier_size(all.subrange(0, i as int), tier),
            number <= i,
            out@ == old(out)@ + tier_records(all.subrange(0, i as int), tier),
        decreases entries@.len() - i,
    {
        let ghost before = all.subrange(0, i as int);
        proof {
            assert(all.subrange(0, i + 1).drop_last() =~= before);
        }
        let entry = &entries[i];
        if tier.admits(entry.freq) {
            let ghost start = out@;
            let kept: usize = if entry.key.len() < 255 {
                entry.key.len()
            } else {
                255
            };
            le::put_le(out, number as u64, width);
            out.push(kept as u8);
            out.extend_from_slice(vstd::slice::slice_subrange(entry.key.as_slice(), 0, kept));
            let ghost middle = start + le::le_bytes(number as nat, width as nat) + seq![kept as u8];
            assert(out@ =~= middle + entry.key@.subrange(0, kept as int));
            le::put_le(out, entry.freq as u64, 4);
            assert(out@ =~= start + record(number as nat, width as nat, entry@));
            assert(out@ =~= old(out)@ + tier_records(all.subrange(0, i + 1), tier));
            number = number + 1;
        }
        i = i + 1;
    }
    assert(all.subrange(0, i as int) =~= all);
}

/// The total length of the keys.
pub fn total_key_bytes(entries: &Vec<Entry>) -> (n: Option<u64>)
    ensures
        match n {
            Some(n) => n == key_bytes(entry_views(entries@)),
            None => key_bytes(entry_views(entries@)) > u64::MAX,
        },
{
    let ghost all = entry_views(entries@);
    let mut n: u64 = 0;
    let mut i: usize = 0;
    assert(all.subrange(0, 0) =~= Seq::empty());
    while i < entries.len()
        invariant
            i <= entries@.len(),
            all == entry_views(entries@),
            n == key_bytes(all.subrange(0, i as int)),
        decreases entries@.len() - i,
    {
        proof {
            assert(all.subrange(0, i + 1).drop_last() =~= all.subrange(0, i as int));
            lemma_key_bytes_prefix(all, i + 1);
        }
        n = match n.checked_add(entries[i].key.len() as u64) {
            Some(n) => n,
            None => {
                return None;
            },
        };
        i = i + 1;
    }
    assert(all.subrange(0, i as int) =~= all);
    Some(n)
}

/// The image of the entries, in the order given.
pub fn encode_image(entries: &Vec<Entry>) -> (out: Vec<u8>)
    requires
        entries@.len() <= u32::MAX,
        key_bytes(entry_views(entries@)) <= u64::MAX,
    ensures
        out@ == image(entry_views(entries@)),
{
    let ghost all = entry_views(entries@);
    let mut out: Vec<u8> = Vec::new();
    le::put_le(&mut out, entries.len() as u64, 4);
    let i8_count = count_tier(entries, Tier::I8);
    le::put_le(&mut out, i8_count as u64, 4);
    let i16_count = count_tier(entries, Tier::I16);
    le::put_le(&mut out, i16_count as u64, 4);
    let i32_count = count_tier(entries, Tier::I32);
    le::put_le(&mut out, i32_count as u64, 4);
    let i64_count = count_tier(entries, Tier::I64);
    le::put_le(&mut out, i64_count as u64, 4);
    let i128_count = count_tier(entries, Tier::I128);
    le::put_le(&mut out, i128_count as u64, 4);
    assert(out@ =~= header(all));
    write_tier(&mut out, entries, Tier::I8);
    write_tier(&mut out, entries, Tier::I16);
    write_tier(&mut out, entries, Tier::I32);
    write_tier(&mut out, entries, Tier::I64);
    write_tier(&mut out, entries, Tier::I128);
    assert(out@ =~= header(all) + records(all));
    let original_size = total_key_bytes(entries).unwrap();
    let compressed_size = out.len() as u64;
    le::put_le(&mut out, original_size, 8);
    le::put_le(&mut out, compressed_size, 8);
    assert(out@ =~= image(all));
    out
}

fn frequency_order(a: &Entry, b: &Entry) -> (o: Ordering)
    ensures
        o == (if a.freq > b.freq {
            Ordering::Less
        } else if a.freq < b.freq {
            Ordering::Greater
        } else {
            Ordering::Equal
        }),
{
    if a.freq > b.freq {
        Ordering::Less
    } else if a.freq < b.freq {
        Ordering::Greater
    } else {
        Ordering::Equal
    }
}

/// Calls `<[T]>::sort_unstable_by` with the order above, which is total: the entries are the
/// same as before, with higher frequencies first. Which of two entries of equal frequency
/// comes first is left open.
#[verifier::external_body]
fn sort_entries(entries: &mut Vec<Entry>)
    ensures
        entry_views(final(entries)@).to_multiset() == entry_views(old(entries)@).to_multiset(),
        by_descending_frequency(entry_views(final(entries)@)),
{
    entries.sort_unstable_by(|a, b| frequency_order(a, b));
}

/// `sorted` holds the same entries, with higher frequencies first.
pub open spec fn arranges(sorted: Seq<(Seq<u8>, u32)>, entries: Seq<(Seq<u8>, u32)>) -> bool {
    sorted.to_multiset() == entries.to_multiset() && by_descending_frequency(sorted)
}

/// A compiled image and the number of patterns in it.
#[derive(Clone, Debug, PartialEq, Eq)]
pub struct CompiledImage {
    pub bytes: Vec<u8>,
    pub patterns: usize,
}

/// Reads the counts out of the database rows.
pub fn collect_entries(rows: Vec<(Vec<u8>, Vec<u8>)>) -> (entries: Vec<Entry>)
    ensures
        entry_views(entries@) == readable(rows@),
{
    let mut entries: Vec<Entry> = Vec::new();
    let ghost all = rows@;
    assert(all.subrange(0, 0) =~= Seq::empty());
    for row in it: rows
        invariant
            it.seq() == all,
            entry_views(entries@) == readable(all.subrange(0, it.index() as int)),
    {
        let ghost done = it.index() as int;
        assert(row == all[done]);
        assert(all.subrange(0, done + 1).drop_last() =~= all.subrange(0, done));
        let (key, value) = row;
        if value.len() >= 4 {
            let ghost before = entries@;
            let freq = store::read_count(Some(value.as_slice()));
            entries.push(Entry { key, freq });
            assert(entry_views(entries@) =~= entry_views(before).push((key@, freq)));
        }
    }
    assert(all.subrange(0, all.len() as int) =~= all);
    entries
}

/// Compiles the image of the entries, or nothing where there are none. Entries of equal
/// frequency may come in any order.
pub fn compile_image(entries: Vec<Entry>) -> (compiled: Option<CompiledImage>)
    requires
        entries@.len() <= u32::MAX,
        key_bytes(entry_views(entries@)) <= u64::MAX,
    ensures
        match compiled {
            None => entries@.len() == 0,
            Some(c) => {
                &&& entries@.len() > 0
                &&& c.patterns == entries@.len()
                &&& exists|sorted: Seq<(Seq<u8>, u32)>|
                    #[trigger] arranges(sorted, entry_views(entries@)) && c.bytes@ == image(sorted)
            },
        },
{
    if entries.len() == 0 {
        return None;
    }
    let mut sorted = entries;
    sort_entries(&mut sorted);
    proof {
        let a = entry_views(sorted@);
        let b = entry_views(entries@);
        a.to_multiset_ensures();
        b.to_multiset_ensures();
        lemma_key_bytes_rearranged(a, b);
        assert(arranges(a, b));
    }
    let bytes = encode_image(&sorted);
    Some(CompiledImage { bytes, patterns: sorted.len() })
}

} // verus!
