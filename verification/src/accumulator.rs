//! The in-memory tally of patterns that awaits the next write to the database.
use std::collections::HashMap;
use vstd::prelude::*;

use crate::text;

verus! {

/// From this many distinct patterns on, the tally is to be written out at once.
pub const ACCUMULATOR_FLUSH_LIMIT: usize = 5_000_000;

/// The most bytes of a pattern that are kept.
pub const MAX_PATTERN_BYTES: usize = 255;

/// The bytes under which a pattern is counted: its UTF-8 encoding, cut after 255 bytes.
pub open spec fn pattern_key(text: Seq<char>) -> Seq<u8> {
    let bytes = vstd::utf8::encode_utf8(text);
    if bytes.len() > MAX_PATTERN_BYTES {
        bytes.subrange(0, MAX_PATTERN_BYTES as int)
    } else {
        bytes
    }
}

/// The patterns as pairs of text and count.
pub open spec fn pattern_views(patterns: Seq<(String, u32)>) -> Seq<(Seq<char>, u32)> {
    Seq::new(patterns.len(), |i: int| (patterns[i].0@, patterns[i].1))
}

/// Some pattern is counted under `key`.
pub open spec fn names_key(patterns: Seq<(Seq<char>, u32)>, key: Seq<u8>) -> bool {
    exists|i: int| 0 <= i < patterns.len() && pattern_key((#[trigger] patterns[i]).0) == key
}

/// The sum of the counts of all patterns that are counted under `key`.
pub open spec fn total_for(patterns: Seq<(Seq<char>, u32)>, key: Seq<u8>) -> nat
    decreases patterns.len(),
{
    if patterns.len() == 0 {
        0
    } else {
        total_for(patterns.drop_last(), key) + if pattern_key(patterns.last().0) == key {
            patterns.last().1 as nat
        } else {
            0nat
        }
    }
}

/// The tally of `key`, zero where there is none.
pub open spec fn tally_of(tally: Map<Seq<u8>, u32>, key: Seq<u8>) -> nat {
    if tally.contains_key(key) {
        tally[key] as nat
    } else {
        0
    }
}

/// No tally grows past 32 bits when the patterns are added.
pub open spec fn fits(tally: Map<Seq<u8>, u32>, patterns: Seq<(Seq<char>, u32)>) -> bool {
    forall|key: Seq<u8>|
        tally_of(tally, key) + #[trigger] total_for(patterns, key) <= u32::MAX
}

/// The tally after the patterns were added.
pub open spec fn merged(
    tally: Map<Seq<u8>, u32>,
    patterns: Seq<(Seq<char>, u32)>,
) -> Map<Seq<u8>, u32> {
    Map::new(
        |key: Seq<u8>| tally.contains_key(key) || names_key(patterns, key),
        |key: Seq<u8>| (tally_of(tally, key) + total_for(patterns, key)) as u32,
    )
}

/// The entries are the tally: one for each key, and no others.
pub open spec fn lists(entries: Seq<(Vec<u8>, u32)>, tally: Map<Seq<u8>, u32>) -> bool {
    &&& forall|i: int, j: int|
        0 <= i < j < entries.len() ==> (#[trigger] entries[i]).0@ != (#[trigger] entries[j]).0@
    &&& forall|i: int|
        0 <= i < entries.len() ==> tally.contains_key((#[trigger] entries[i]).0@)
            && tally[entries[i].0@] == entries[i].1
    &&& forall|key: Seq<u8>| #[trigger]
        tally.contains_key(key) ==> exists|i: int|
            0 <= i < entries.len() && (#[trigger] entries[i]).0@ == key
}

/// The patterns are the counts: one for each text, and no others.
pub open spec fn lists_patterns(
    patterns: Seq<(Seq<char>, u32)>,
    counts: Map<Seq<char>, u32>,
) -> bool {
    &&& forall|i: int, j: int|
        0 <= i < j < patterns.len() ==> (#[trigger] patterns[i]).0 != (#[trigger] patterns[j]).0
    &&& forall|i: int|
        0 <= i < patterns.len() ==> counts.contains_key((#[trigger] patterns[i]).0)
            && counts[patterns[i].0] == patterns[i].1
    &&& forall|text: Seq<char>| #[trigger]
        counts.contains_key(text) ==> exists|i: int|
            0 <= i < patterns.len() && (#[trigger] patterns[i]).0 == text
}

pub proof fn lemma_lists_patterns_len(
    patterns: Seq<(Seq<char>, u32)>,
    counts: Map<Seq<char>, u32>,
)
    requires
        lists_patterns(patterns, counts),
    ensures
        counts.len() == patterns.len(),
{
    let names = Seq::new(patterns.len(), |i: int| patterns[i].0);
    assert(names.no_duplicates());
    names.unique_seq_to_set();
    assert(names.to_set() =~= counts.dom()) by {
        assert forall|text: Seq<char>| counts.dom().contains(text) implies names.to_set().contains(
            text,
        ) by {
            assert(counts.contains_key(text));
            let i = choose|i: int| 0 <= i < patterns.len() && (#[trigger] patterns[i]).0 == text;
            assert(names[i] == text);
        }
        assert forall|text: Seq<char>| names.to_set().contains(text) implies counts.dom().contains(
            text,
        ) by {
            let i = choose|i: int| 0 <= i < names.len() && names[i] == text;
            assert(counts.contains_key(patterns[i].0));
        }
    }
}

/// The FNV-1a digest of a byte string.
spec fn digest(bytes: Seq<u8>) -> u64
    decreases bytes.len(),
{
    if bytes.len() == 0 {
        0xcbf2_9ce4_8422_2325
    } else {
        (digest(bytes.drop_last()) ^ (bytes.last() as u64)).wrapping_mul(0x0100_0000_01b3)
    }
}

fn compute_digest(bytes: &[u8]) -> (h: u64)
    ensures
        h == digest(bytes@),
{
    let mut h: u64 = 0xcbf2_9ce4_8422_2325;
    let mut i: usize = 0;
    assert(bytes@.subrange(0, 0) =~= Seq::empty());
    while i < bytes.len()
        invariant
            i <= bytes@.len(),
            h == digest(bytes@.subrange(0, i as int)),
        decreases bytes@.len() - i,
    {
        assert(bytes@.subrange(0, i + 1).drop_last() =~= bytes@.subrange(0, i as int));
        h = (h ^ (bytes[i] as u64)).wrapping_mul(0x0100_0000_01b3);
        i = i + 1;
    }
    assert(bytes@.subrange(0, i as int) =~= bytes@);
    h
}

/// Counts per pattern key. Keys and counts stand side by side; the index finds the place of a
/// key by its digest.
pub struct Accumulator {
    keys: Vec<Vec<u8>>,
    counts: Vec<u32>,
    index: HashMap<u64, Vec<usize>>,
}

impl View for Accumulator {
    type V = Map<Seq<u8>, u32>;

    closed spec fn view(&self) -> Map<Seq<u8>, u32> {
        Map::new(|key: Seq<u8>| self.has(key), |key: Seq<u8>| self.counts@[self.place(key)])
    }
}

impl Accumulator {
    spec fn has(&self, key: Seq<u8>) -> bool {
        exists|i: int| 0 <= i < self.keys@.len() && (#[trigger] self.keys@[i])@ == key
    }

    spec fn place(&self, key: Seq<u8>) -> int {
        choose|i: int| 0 <= i < self.keys@.len() && (#[trigger] self.keys@[i])@ == key
    }

    /// No key is held twice, and the index finds every key.
    pub closed spec fn wf(&self) -> bool {
        &&& self.keys@.len() == self.counts@.len()
        &&& forall|i: int, j: int|
            0 <= i < j < self.keys@.len() ==> (#[trigger] self.keys@[i])@ != (
            #[trigger] self.keys@[j])@
        &&& forall|i: int|
            0 <= i < self.keys@.len() ==> {
                &&& self.index@.contains_key(digest((#[trigger] self.keys@[i])@))
                &&& self.index@[digest(self.keys@[i]@)]@.contains(i as usize)
            }
        &&& forall|h: u64, p: int|
            #![trigger self.index@[h]@[p]]
            self.index@.contains_key(h) && 0 <= p < self.index@[h]@.len() ==> self.index@[h]@[p]
                < self.keys@.len()
    }

    /// An empty tally.
    pub fn new() -> (a: Accumulator)
        ensures
            a.wf(),
            a@ == Map::<Seq<u8>, u32>::empty(),
    {
        let a = Accumulator { keys: Vec::new(), counts: Vec::new(), index: HashMap::new() };
        assert(a@ =~= Map::<Seq<u8>, u32>::empty());
        a
    }

    proof fn lemma_at(&self, i: int)
        requires
            self.wf(),
            0 <= i < self.keys@.len(),
        ensures
            self@.contains_key(self.keys@[i]@),
            self@[self.keys@[i]@] == self.counts@[i],
    {
        let key = self.keys@[i]@;
        assert(self.has(key));
        let j = self.place(key);
        assert(self.keys@[j]@ == key);
    }

    fn find(&self, key: &[u8]) -> (place: Option<usize>)
        requires
            self.wf(),
        ensures
            match place {
                Some(i) => i < self.keys@.len() && self.keys@[i as int]@ == key@,
                None => !self@.contains_key(key@),
            },
    {
        broadcast use vstd::std_specs::hash::group_hash_axioms;

        let h = compute_digest(key);
        match self.index.get(&h) {
            Some(bucket) => {
                let mut p: usize = 0;
                while p < bucket.len()
                    invariant
                        self.wf(),
                        h == digest(key@),
                        self.index@.contains_key(h),
                        *bucket == self.index@[h],
                        p <= bucket@.len(),
                        forall|q: int|
                            0 <= q < p ==> self.keys@[(#[trigger] bucket@[q]) as int]@ != key@,
                    decreases bucket@.len() - p,
                {
                    let i = bucket[p];
                    assert(self.index@[h]@[p as int] < self.keys@.len());
                    if text::same_bytes(self.keys[i].as_slice(), key) {
                        return Some(i);
                    }
                    p = p + 1;
                }
                proof {
                    if self.has(key@) {
                        let i = self.place(key@);
                        assert(self.keys@[i]@ == key@);
                        assert(i < self.keys.len());
                        assert(self.index@[digest(self.keys@[i]@)]@.contains(i as usize));
                        let q = choose|q: int| 0 <= q < bucket@.len() && bucket@[q] == i as usize;
                        assert(self.keys@[bucket@[q] as int]@ != key@);
                    }
                }
                None
            },
            None => {
                proof {
                    if self.has(key@) {
                        let i = self.place(key@);
                        assert(self.keys@[i]@ == key@);
                        assert(self.index@.contains_key(digest(self.keys@[i]@)));
                    }
                }
                None
            },
        }
    }

    /// The count of a key, zero where it has none.
    pub fn count(&self, key: &[u8]) -> (n: u32)
        requires
            self.wf(),
        ensures
            n == tally_of(self@, key@),
    {
        match self.find(key) {
            Some(i) => {
                proof {
                    self.lemma_at(i as int);
                }
                self.counts[i]
            },
            None => 0,
        }
    }

    /// How many keys have a count.
    pub fn len(&self) -> (n: usize)
        requires
            self.wf(),
        ensures
            n == self@.len(),
    {
        proof {
            self.lemma_len();
        }
        self.keys.len()
    }

    proof fn lemma_len(&self)
        requires
            self.wf(),
        ensures
            self@.dom().finite(),
            self@.len() == self.keys@.len(),
    {
        let views = Seq::new(self.keys@.len(), |i: int| self.keys@[i]@);
        assert(views.no_duplicates());
        views.unique_seq_to_set();
        assert(views.to_set() =~= self@.dom()) by {
            assert forall|key: Seq<u8>| self@.dom().contains(key) implies views.to_set().contains(
                key,
            ) by {
                let i = self.place(key);
                assert(views[i] == key);
            }
            assert forall|key: Seq<u8>| views.to_set().contains(key) implies self@.dom().contains(
                key,
            ) by {
                let i = choose|i: int| 0 <= i < views.len() && views[i] == key;
                assert(self.keys@[i]@ == key);
            }
        }
    }

    fn append(&mut self, key: Vec<u8>, count: u32)
        requires
            old(self).wf(),
            !old(self)@.contains_key(key@),
        ensures
            final(self).wf(),
            final(self)@ == old(self)@.insert(key@, count),
    {
        broadcast use vstd::std_specs::hash::group_hash_axioms;

        let ghost before = *self;
        let h = compute_digest(key.as_slice());
        let place = self.keys.len();
        let mut bucket: Vec<usize> = match self.index.remove(&h) {
            Some(bucket) => bucket,
            None => Vec::new(),
        };
        let ghost held = bucket@;
        bucket.push(place);
        let ghost full = bucket;
        self.index.insert(h, bucket);
        self.keys.push(key);
        self.counts.push(count);
        proof {
            assert(self.index@ =~= before.index@.insert(h, full));
            assert forall|i: int, j: int| 0 <= i < j < self.keys@.len() implies (
            #[trigger] self.keys@[i])@ != (#[trigger] self.keys@[j])@ by {
                assert(self.keys@[i] == before.keys@[i]);
                if j == place {
                    if self.keys@[i]@ == key@ {
                        assert(before.has(key@));
                    }
                } else {
                    assert(self.keys@[j] == before.keys@[j]);
                }
            }
            assert forall|i: int| 0 <= i < self.keys@.len() implies {
                &&& self.index@.contains_key(digest((#[trigger] self.keys@[i])@))
                &&& self.index@[digest(self.keys@[i]@)]@.contains(i as usize)
            } by {
                let d = digest(self.keys@[i]@);
                if i == place {
                    assert(full@[held.len() as int] == place);
                } else {
                    assert(self.keys@[i] == before.keys@[i]);
                    assert(before.index@[digest(before.keys@[i]@)]@.contains(i as usize));
                    if d == h {
                        let p = choose|p: int|
                            0 <= p < before.index@[d]@.len() && before.index@[d]@[p] == i as usize;
                        assert(full@[p] == i as usize);
                    }
                }
            }
            assert forall|g: u64, p: int|
                #![trigger self.index@[g]@[p]]
                self.index@.contains_key(g) && 0 <= p < self.index@[g]@.len() implies
                self.index@[g]@[p] < self.keys@.len() by {
                if g == h {
                    if p < held.len() {
                        assert(full@[p] == held[p]);
                        assert(before.index@[h]@[p] < before.keys@.len());
                    }
                } else {
                    assert(before.index@[g]@[p] < before.keys@.len());
                }
            }
            assert(self.wf());
            assert forall|k: Seq<u8>| #[trigger] self@.contains_key(k) == before@.insert(
                key@,
                count,
            ).contains_key(k) by {
                if self.has(k) {
                    let i = self.place(k);
                    assert(self.keys@[i]@ == k);
                    if i < place {
                        assert(before.keys@[i] == self.keys@[i]);
                        assert(before.has(k));
                    }
                }
                if before.has(k) {
                    let i = before.place(k);
                    assert(self.keys@[i] == before.keys@[i]);
                    assert(self.has(k));
                }
                assert(self.keys@[place as int]@ == key@);
            }
            assert forall|k: Seq<u8>| #[trigger] self@.contains_key(k) implies self@[k]
                == before@.insert(key@, count)[k] by {
                if k == key@ {
                    self.lemma_at(place as int);
                } else {
                    let i = before.place(k);
                    assert(before.has(k));
                    assert(self.keys@[i] == before.keys@[i]);
                    self.lemma_at(i);
                    before.lemma_at(i);
                }
            }
            assert(self@ =~= before@.insert(key@, count));
        }
    }

    fn raise(&mut self, place: usize, count: u32)
        requires
            old(self).wf(),
            place < old(self).keys@.len(),
        ensures
            final(self).wf(),
            final(self)@ == old(self)@.insert(old(self).keys@[place as int]@, count),
    {
        let ghost before = *self;
        self.counts.set(place, count);
        proof {
            let key = before.keys@[place as int]@;
            assert(self.wf());
            assert(before.has(key));
            assert forall|k: Seq<u8>| #[trigger] self@.contains_key(k) implies self@[k]
                == before@.insert(key, count)[k] by {
                let i = self.place(k);
                assert(self.has(k));
                self.lemma_at(i);
                before.lemma_at(i);
            }
            assert forall|k: Seq<u8>| self.has(k) == before.has(k) by {
            }
            assert(self@ =~= before@.insert(key, count));
        }
    }

    /// Adds `added` to the count of `key`, which starts from zero.
    pub fn bump(&mut self, key: Vec<u8>, added: u32)
        requires
            old(self).wf(),
            tally_of(old(self)@, key@) + added <= u32::MAX,
        ensures
            final(self).wf(),
            final(self)@ == old(self)@.insert(
                key@,
                (tally_of(old(self)@, key@) + added) as u32,
            ),
    {
        match self.find(key.as_slice()) {
            Some(i) => {
                proof {
                    self.lemma_at(i as int);
                }
                let count = self.counts[i] + added;
                self.raise(i, count);
            },
            None => {
                self.append(key, added);
            },
        }
    }
}

/// How far the totals of a shorter list of patterns reach.
proof fn lemma_total_prefix(patterns: Seq<(Seq<char>, u32)>, n: int, key: Seq<u8>)
    requires
        0 <= n <= patterns.len(),
    ensures
        total_for(patterns.subrange(0, n), key) <= total_for(patterns, key),
    decreases patterns.len() - n,
{
    if n < patterns.len() {
        lemma_total_prefix(patterns, n + 1, key);
        assert(patterns.subrange(0, n + 1).drop_last() =~= patterns.subrange(0, n));
    } else {
        assert(patterns.subrange(0, n) =~= patterns);
    }
}

proof fn lemma_total_unnamed(patterns: Seq<(Seq<char>, u32)>, key: Seq<u8>)
    requires
        !names_key(patterns, key),
    ensures
        total_for(patterns, key) == 0,
    decreases patterns.len(),
{
    if patterns.len() > 0 {
        let before = patterns.drop_last();
        assert(pattern_key(patterns[patterns.len() - 1].0) != key);
        assert forall|i: int| 0 <= i < before.len() implies pattern_key(
            (#[trigger] before[i]).0,
        ) != key by {
            assert(before[i] == patterns[i]);
        }
        lemma_total_unnamed(before, key);
    }
}

/// What the tally holds for a key after the patterns were added.
pub proof fn lemma_merged_at(
    tally: Map<Seq<u8>, u32>,
    patterns: Seq<(Seq<char>, u32)>,
    key: Seq<u8>,
)
    requires
        tally_of(tally, key) + total_for(patterns, key) <= u32::MAX,
    ensures
        tally_of(merged(tally, patterns), key) == tally_of(tally, key) + total_for(patterns, key),
{
    if !names_key(patterns, key) {
        lemma_total_unnamed(patterns, key);
    }
}

/// One more pattern adds its count to its key and leaves the others.
proof fn lemma_merged_step(
    tally: Map<Seq<u8>, u32>,
    patterns: Seq<(Seq<char>, u32)>,
    n: int,
)
    requires
        0 <= n < patterns.len(),
        forall|key: Seq<u8>|
            tally_of(tally, key) + #[trigger] total_for(patterns.subrange(0, n + 1), key)
                <= u32::MAX,
    ensures
        ({
            let done = merged(tally, patterns.subrange(0, n));
            let key = pattern_key(patterns[n].0);
            &&& tally_of(done, key) + patterns[n].1 <= u32::MAX
            &&& merged(tally, patterns.subrange(0, n + 1)) == done.insert(
                key,
                (tally_of(done, key) + patterns[n].1) as u32,
            )
        }),
{
    let short = patterns.subrange(0, n);
    let long = patterns.subrange(0, n + 1);
    let done = merged(tally, short);
    let key = pattern_key(patterns[n].0);
    assert(long.drop_last() =~= short);
    assert(long.last() == patterns[n]);
    if !names_key(short, key) {
        lemma_total_unnamed(short, key);
    }
    assert(total_for(long, key) == total_for(short, key) + patterns[n].1);
    assert(tally_of(done, key) == tally_of(tally, key) + total_for(short, key));
    let next = done.insert(key, (tally_of(done, key) + patterns[n].1) as u32);
    assert forall|k: Seq<u8>| #[trigger] merged(tally, long).contains_key(k) == next.contains_key(
        k,
    ) by {
        if names_key(short, k) {
            let i = choose|i: int|
                0 <= i < short.len() && pattern_key((#[trigger] short[i]).0) == k;
            assert(long[i] == short[i]);
        }
        if names_key(long, k) && k != key {
            let i = choose|i: int| 0 <= i < long.len() && pattern_key((#[trigger] long[i]).0) == k;
            assert(short[i] == long[i]);
        }
        assert(long[n] == patterns[n]);
    }
    assert(merged(tally, long) =~= next);
}

impl Accumulator {
    /// Adds the patterns, each to the count of its key, and says whether the tally is now to be
    /// written out.
    pub fn add_patterns(&mut self, patterns: &Vec<(String, u32)>) -> (full: bool)
        requires
            old(self).wf(),
            fits(old(self)@, pattern_views(patterns@)),
        ensures
            final(self).wf(),
            final(self)@ == merged(old(self)@, pattern_views(patterns@)),
            full == (final(self)@.len() >= ACCUMULATOR_FLUSH_LIMIT),
            full == (final(self)@.len() >= 5_000_000),
    {
        let ghost tally = self@;
        let ghost all = pattern_views(patterns@);
        let mut i: usize = 0;
        assert(self@ =~= merged(tally, all.subrange(0, 0)));
        while i < patterns.len()
            invariant
                i <= patterns@.len(),
                all == pattern_views(patterns@),
                fits(tally, all),
                self.wf(),
                self@ == merged(tally, all.subrange(0, i as int)),
            decreases patterns@.len() - i,
        {
            let (text, count) = &patterns[i];
            proof {
                assert forall|key: Seq<u8>|
                    tally_of(tally, key) + #[trigger] total_for(all.subrange(0, i + 1), key)
                        <= u32::MAX by {
                    lemma_total_prefix(all, i + 1, key);
                    assert(tally_of(tally, key) + total_for(all, key) <= u32::MAX);
                }
                lemma_merged_step(tally, all, i as int);
            }
            let key = cut_key(text.as_str());
            self.bump(key, *count);
            i = i + 1;
        }
        assert(all.subrange(0, i as int) =~= all);
        self.len() >= ACCUMULATOR_FLUSH_LIMIT
    }

    /// Says whether the patterns can be added without a count growing past 32 bits.
    pub fn can_add(&self, patterns: &Vec<(String, u32)>) -> (can: bool)
        requires
            self.wf(),
        ensures
            can == fits(self@, pattern_views(patterns@)),
    {
        let ghost none = Map::<Seq<u8>, u32>::empty();
        let ghost all = pattern_views(patterns@);
        let mut sums = Accumulator::new();
        let mut i: usize = 0;
        assert(sums@ =~= merged(none, all.subrange(0, 0)));
        assert(all.subrange(0, 0) =~= Seq::empty());
        while i < patterns.len()
            invariant
                i <= patterns@.len(),
                all == pattern_views(patterns@),
                none == Map::<Seq<u8>, u32>::empty(),
                forall|key: Seq<u8>|
                    #[trigger] total_for(all.subrange(0, i as int), key) <= u32::MAX,
                sums.wf(),
                sums@ == merged(none, all.subrange(0, i as int)),
            decreases patterns@.len() - i,
        {
            let (text, count) = &patterns[i];
            let key = cut_key(text.as_str());
            let so_far = sums.count(key.as_slice());
            let ghost short = all.subrange(0, i as int);
            let ghost long = all.subrange(0, i + 1);
            proof {
                assert(long.drop_last() =~= short);
                if !names_key(short, key@) {
                    lemma_total_unnamed(short, key@);
                }
                assert(so_far == total_for(short, key@));
                lemma_total_prefix(all, i + 1, key@);
            }
            if *count > u32::MAX - so_far {
                assert(tally_of(self@, key@) + total_for(all, key@) > u32::MAX);
                return false;
            }
            proof {
                assert forall|k: Seq<u8>| #[trigger] total_for(long, k) <= u32::MAX by {
                    assert(total_for(short, k) <= u32::MAX);
                }
                lemma_merged_step(none, all, i as int);
            }
            sums.bump(key, *count);
            i = i + 1;
        }
        assert(all.subrange(0, i as int) =~= all);
        let mut j: usize = 0;
        while j < sums.keys.len()
            invariant
                j <= sums.keys@.len(),
                self.wf(),
                sums.wf(),
                all == pattern_views(patterns@),
                none == Map::<Seq<u8>, u32>::empty(),
                sums@ == merged(none, all),
                forall|key: Seq<u8>| #[trigger] total_for(all, key) <= u32::MAX,
                forall|k: int|
                    0 <= k < j ==> tally_of(self@, (#[trigger] sums.keys@[k])@) + total_for(
                        all,
                        sums.keys@[k]@,
                    ) <= u32::MAX,
            decreases sums.keys@.len() - j,
        {
            let held = self.count(sums.keys[j].as_slice());
            proof {
                sums.lemma_at(j as int);
                assert(sums.counts@[j as int] == total_for(all, sums.keys@[j as int]@));
            }
            if sums.counts[j] > u32::MAX - held {
                assert(tally_of(self@, sums.keys@[j as int]@) + total_for(
                    all,
                    sums.keys@[j as int]@,
                ) > u32::MAX);
                return false;
            }
            j = j + 1;
        }
        proof {
            assert forall|key: Seq<u8>| tally_of(self@, key) + #[trigger] total_for(all, key)
                <= u32::MAX by {
                if names_key(all, key) {
                    assert(sums@.contains_key(key));
                    let k = sums.place(key);
                    assert(sums.has(key));
                    assert(sums.keys@[k]@ == key);
                } else {
                    lemma_total_unnamed(all, key);
                }
            }
        }
        true
    }

    /// Hands the whole tally out and starts again from an empty one.
    pub fn take(&mut self) -> (taken: Accumulator)
        requires
            old(self).wf(),
        ensures
            taken.wf(),
            taken@ == old(self)@,
            final(self).wf(),
            final(self)@ == Map::<Seq<u8>, u32>::empty(),
    {
        let mut taken = Accumulator::new();
        std::mem::swap(self, &mut taken);
        taken
    }

    /// Adds the patterns, each to the count of its key. A tally that reaches the limit by that is
    /// handed out whole, to be written out at once, and the next one starts empty: what is kept
    /// stays below the limit.
    pub fn absorb(&mut self, patterns: &Vec<(String, u32)>) -> (full: Option<Accumulator>)
        requires
            old(self).wf(),
            fits(old(self)@, pattern_views(patterns@)),
        ensures
            final(self).wf(),
            final(self)@.len() < ACCUMULATOR_FLUSH_LIMIT,
            ({
                let all = merged(old(self)@, pattern_views(patterns@));
                match full {
                    Some(taken) => {
                        &&& all.len() >= ACCUMULATOR_FLUSH_LIMIT
                        &&& taken.wf()
                        &&& taken@ == all
                        &&& final(self)@ == Map::<Seq<u8>, u32>::empty()
                    },
                    None => all.len() < ACCUMULATOR_FLUSH_LIMIT && final(self)@ == all,
                }
            }),
            full is Some == (merged(old(self)@, pattern_views(patterns@)).len() >= 5_000_000),
    {
        if self.add_patterns(patterns) {
            Some(self.take())
        } else {
            None
        }
    }

    /// Whether there is nothing to write out.
    pub fn is_empty(&self) -> (empty: bool)
        requires
            self.wf(),
        ensures
            empty == (self@ == Map::<Seq<u8>, u32>::empty()),
    {
        proof {
            if self.keys@.len() > 0 {
                self.lemma_at(0);
            } else {
                assert(self@ =~= Map::<Seq<u8>, u32>::empty());
            }
        }
        self.keys.len() == 0
    }

    /// The keys with their counts, in no particular order.
    pub fn into_entries(self) -> (entries: Vec<(Vec<u8>, u32)>)
        requires
            self.wf(),
        ensures
            lists(entries@, self@),
            entries@.len() == self@.len(),
    {
        proof {
            self.lemma_len();
        }
        let ghost all = self.keys@;
        let counts = self.counts;
        let mut entries: Vec<(Vec<u8>, u32)> = Vec::new();
        for key in it: self.keys
            invariant
                it.seq() == all,
                counts@.len() == all.len(),
                entries@.len() == it.index(),
                forall|k: int|
                    0 <= k < entries@.len() ==> (#[trigger] entries@[k]).0 == all[k]
                        && entries@[k].1 == counts@[k],
        {
            let i = entries.len();
            assert(key == all[i as int]);
            entries.push((key, counts[i]));
        }
        proof {
            assert forall|i: int, j: int| 0 <= i < j < entries@.len() implies (
            #[trigger] entries@[i]).0@ != (#[trigger] entries@[j]).0@ by {
                assert(all[i]@ != all[j]@);
            }
            assert forall|i: int| 0 <= i < entries@.len() implies self@.contains_key(
                (#[trigger] entries@[i]).0@,
            ) && self@[entries@[i].0@] == entries@[i].1 by {
                self.lemma_at(i);
            }
            assert forall|key: Seq<u8>| #[trigger] self@.contains_key(key) implies exists|i: int|
                0 <= i < entries@.len() && (#[trigger] entries@[i]).0@ == key by {
                let i = self.place(key);
                assert(self.has(key));
                assert(entries@[i].0@ == key);
            }
        }
        entries
    }
}

/// The sum over all patterns that are counted under `key`, less one of them.
proof fn lemma_total_remove(patterns: Seq<(Seq<char>, u32)>, i: int, key: Seq<u8>)
    requires
        0 <= i < patterns.len(),
    ensures
        total_for(patterns, key) == total_for(patterns.remove(i), key) + if pattern_key(
            patterns[i].0,
        ) == key {
            patterns[i].1 as nat
        } else {
            0nat
        },
    decreases patterns.len(),
{
    if i == patterns.len() - 1 {
        assert(patterns.remove(i) =~= patterns.drop_last());
    } else {
        lemma_total_remove(patterns.drop_last(), i, key);
        assert(patterns.remove(i).drop_last() =~= patterns.drop_last().remove(i));
    }
}

proof fn lemma_total_reordered(
    a: Seq<(Seq<char>, u32)>,
    b: Seq<(Seq<char>, u32)>,
    key: Seq<u8>,
)
    requires
        a.to_multiset() == b.to_multiset(),
    ensures
        total_for(a, key) == total_for(b, key),
    decreases a.len(),
{
    a.to_multiset_ensures();
    b.to_multiset_ensures();
    if a.len() > 0 {
        let x = a.last();
        assert(a.contains(x));
        assert(b.to_multiset().count(x) > 0);
        let i = choose|i: int| 0 <= i < b.len() && b[i] == x;
        assert(a.remove(a.len() - 1) =~= a.drop_last());
        assert(a.drop_last().to_multiset() =~= b.remove(i).to_multiset());
        lemma_total_reordered(a.drop_last(), b.remove(i), key);
        lemma_total_remove(b, i, key);
    }
}

proof fn lemma_names_reordered(
    a: Seq<(Seq<char>, u32)>,
    b: Seq<(Seq<char>, u32)>,
    key: Seq<u8>,
)
    requires
        a.to_multiset() == b.to_multiset(),
        names_key(a, key),
    ensures
        names_key(b, key),
{
    a.to_multiset_ensures();
    b.to_multiset_ensures();
    let i = choose|i: int| 0 <= i < a.len() && pattern_key((#[trigger] a[i]).0) == key;
    assert(a.contains(a[i]));
    assert(b.to_multiset().count(a[i]) > 0);
    let j = choose|j: int| 0 <= j < b.len() && b[j] == a[i];
    assert(pattern_key(b[j].0) == key);
}

/// The order in which patterns are added does not matter.
pub proof fn law_pattern_order_is_irrelevant(
    tally: Map<Seq<u8>, u32>,
    a: Seq<(Seq<char>, u32)>,
    b: Seq<(Seq<char>, u32)>,
)
    requires
        a.to_multiset() == b.to_multiset(),
    ensures
        fits(tally, a) == fits(tally, b),
        merged(tally, a) == merged(tally, b),
{
    assert forall|key: Seq<u8>| #[trigger] total_for(a, key) == total_for(b, key) by {
        lemma_total_reordered(a, b, key);
    }
    assert forall|key: Seq<u8>| #[trigger] total_for(b, key) == total_for(a, key) by {
        lemma_total_reordered(a, b, key);
    }
    assert forall|key: Seq<u8>| names_key(a, key) == names_key(b, key) by {
        if names_key(a, key) {
            lemma_names_reordered(a, b, key);
        }
        if names_key(b, key) {
            lemma_names_reordered(b, a, key);
        }
    }
    assert(fits(tally, a) == fits(tally, b));
    assert(merged(tally, a) =~= merged(tally, b));
}

proof fn lemma_total_concat(a: Seq<(Seq<char>, u32)>, b: Seq<(Seq<char>, u32)>, key: Seq<u8>)
    ensures
        total_for(a + b, key) == total_for(a, key) + total_for(b, key),
    decreases b.len(),
{
    if b.len() == 0 {
        assert(a + b =~= a);
    } else {
        lemma_total_concat(a, b.drop_last(), key);
        assert((a + b).drop_last() =~= a + b.drop_last());
    }
}

/// Adding two lists of patterns one after the other is adding them as one.
pub proof fn law_patterns_add_up(
    tally: Map<Seq<u8>, u32>,
    a: Seq<(Seq<char>, u32)>,
    b: Seq<(Seq<char>, u32)>,
)
    requires
        fits(tally, a + b),
    ensures
        fits(tally, a),
        fits(merged(tally, a), b),
        merged(merged(tally, a), b) == merged(tally, a + b),
{
    let first = merged(tally, a);
    assert forall|key: Seq<u8>|
        #![trigger total_for(a, key)]
        #![trigger total_for(b, key)]
        #![trigger tally_of(first, key)]
        tally_of(first, key) == tally_of(tally, key) + total_for(a, key) && tally_of(tally, key)
            + total_for(a, key) + total_for(b, key) <= u32::MAX by {
        lemma_total_concat(a, b, key);
        assert(tally_of(tally, key) + total_for(a + b, key) <= u32::MAX);
        if !names_key(a, key) {
            lemma_total_unnamed(a, key);
        }
    }
    assert forall|key: Seq<u8>| names_key(a + b, key) == (names_key(a, key) || names_key(b, key)) by {
        if names_key(a, key) {
            let i = choose|i: int| 0 <= i < a.len() && pattern_key((#[trigger] a[i]).0) == key;
            assert((a + b)[i] == a[i]);
        }
        if names_key(b, key) {
            let i = choose|i: int| 0 <= i < b.len() && pattern_key((#[trigger] b[i]).0) == key;
            assert((a + b)[a.len() + i] == b[i]);
        }
        if names_key(a + b, key) {
            let i = choose|i: int|
                0 <= i < (a + b).len() && pattern_key((#[trigger] (a + b)[i]).0) == key;
            if i < a.len() {
                assert(a[i] == (a + b)[i]);
            } else {
                assert(b[i - a.len()] == (a + b)[i]);
            }
        }
    }
    assert forall|key: Seq<u8>| total_for(a + b, key) == total_for(a, key) + total_for(b, key) by {
        lemma_total_concat(a, b, key);
    }
    assert(merged(first, b) =~= merged(tally, a + b));
}

/// A tally whose keys are at most 255 bytes long keeps such keys.
pub proof fn law_keys_stay_short(tally: Map<Seq<u8>, u32>, patterns: Seq<(Seq<char>, u32)>)
    requires
        forall|key: Seq<u8>| #[trigger] tally.contains_key(key) ==> key.len() <= MAX_PATTERN_BYTES,
    ensures
        forall|key: Seq<u8>| #[trigger]
            merged(tally, patterns).contains_key(key) ==> key.len() <= MAX_PATTERN_BYTES,
{
}

/// The bytes under which a pattern is counted.
pub fn cut_key(text: &str) -> (key: Vec<u8>)
    ensures
        key@ == pattern_key(text@),
        vstd::utf8::encode_utf8(text@).len() <= 255 ==> key@ == vstd::utf8::encode_utf8(text@),
        vstd::utf8::encode_utf8(text@).len() > 255 ==> key@ == vstd::utf8::encode_utf8(
            text@,
        ).subrange(0, 255),
{
    let bytes = text.as_bytes();
    if bytes.len() > MAX_PATTERN_BYTES {
        vstd::slice::slice_to_vec(vstd::slice::slice_subrange(bytes, 0, MAX_PATTERN_BYTES))
    } else {
        vstd::slice::slice_to_vec(bytes)
    }
}

/// A pattern is counted under its own UTF-8 bytes, one for one, up to 255 of them.
pub proof fn law_pattern_key_is_the_text(text: Seq<char>)
    ensures
        pattern_key(text).len() <= 255,
        vstd::utf8::encode_utf8(text).len() <= 255 ==> pattern_key(text) == vstd::utf8::encode_utf8(
            text,
        ),
        vstd::utf8::encode_utf8(text).len() > 255 ==> pattern_key(text) == vstd::utf8::encode_utf8(
            text,
        ).subrange(0, 255),
{
}

/// Different patterns of at most 255 bytes are counted apart. Only longer ones can fall together:
/// those that agree in their first 255 bytes, and no others.
pub proof fn law_patterns_are_counted_apart(a: Seq<char>, b: Seq<char>)
    ensures
        vstd::utf8::encode_utf8(a).len() <= 255 && vstd::utf8::encode_utf8(b).len() <= 255 && a != b
            ==> pattern_key(a) != pattern_key(b),
        vstd::utf8::encode_utf8(a).len() > 255 && vstd::utf8::encode_utf8(b).len() > 255 ==> (
        pattern_key(a) == pattern_key(b)) == (vstd::utf8::encode_utf8(a).subrange(0, 255)
            == vstd::utf8::encode_utf8(b).subrange(0, 255)),
{
    vstd::utf8::encode_utf8_decode_utf8(a);
    vstd::utf8::encode_utf8_decode_utf8(b);
}

/// The tally of a key is what the tally holds under it, and nothing where it holds none.
pub proof fn law_tally_of(tally: Map<Seq<u8>, u32>, key: Seq<u8>)
    ensures
        tally.contains_key(key) ==> tally_of(tally, key) == tally[key],
        !tally.contains_key(key) ==> tally_of(tally, key) == 0,
{
}

/// What is added for a key is the sum of the counts of its patterns: of each pattern its whole
/// count goes to its own key and nothing to any other.
pub proof fn law_totals_are_sums(
    a: Seq<(Seq<char>, u32)>,
    b: Seq<(Seq<char>, u32)>,
    text: Seq<char>,
    count: u32,
    key: Seq<u8>,
)
    ensures
        total_for(Seq::empty(), key) == 0,
        total_for(a + b, key) == total_for(a, key) + total_for(b, key),
        total_for(seq![(text, count)], pattern_key(text)) == count,
        key != pattern_key(text) ==> total_for(seq![(text, count)], key) == 0,
{
    lemma_total_concat(a, b, key);
    assert(seq![(text, count)].drop_last() =~= Seq::empty());
    reveal_with_fuel(total_for, 2);
}

/// One pattern raises the count under its own bytes, up to 255 of them, by its count, from nothing
/// where there was none, and leaves every other count. No pattern leaves the tally as it is.
pub proof fn law_one_pattern_is_added(
    tally: Map<Seq<u8>, u32>,
    text: Seq<char>,
    count: u32,
    key: Seq<u8>,
)
    requires
        key == if vstd::utf8::encode_utf8(text).len() <= 255 {
            vstd::utf8::encode_utf8(text)
        } else {
            vstd::utf8::encode_utf8(text).subrange(0, 255)
        },
        tally.contains_key(key) ==> tally[key] + count <= u32::MAX,
    ensures
        merged(tally, Seq::empty()) == tally,
        merged(tally, seq![(text, count)]) == tally.insert(
            key,
            if tally.contains_key(key) {
                (tally[key] + count) as u32
            } else {
                count
            },
        ),
{
    let one = seq![(text, count)];
    assert(merged(tally, Seq::empty()) =~= tally);
    assert(one[0] == (text, count));
    assert(names_key(one, key));
    assert forall|k: Seq<u8>| #[trigger] total_for(one, k) == if k == key {
        count as nat
    } else {
        0nat
    } by {
        law_totals_are_sums(one, one, text, count, k);
    }
    assert(merged(tally, one) =~= tally.insert(
        key,
        if tally.contains_key(key) {
            (tally[key] + count) as u32
        } else {
            count
        },
    ));
}

/// The patterns fit exactly where no count leaves 32 bits.
pub proof fn law_fits(tally: Map<Seq<u8>, u32>, patterns: Seq<(Seq<char>, u32)>)
    ensures
        fits(tally, patterns) == (forall|key: Seq<u8>|
            (if tally.contains_key(key) {
                tally[key] as nat
            } else {
                0nat
            }) + #[trigger] total_for(patterns, key) <= u32::MAX),
{
    if fits(tally, patterns) {
        assert forall|key: Seq<u8>|
            (if tally.contains_key(key) {
                tally[key] as nat
            } else {
                0nat
            }) + #[trigger] total_for(patterns, key) <= u32::MAX by {
            assert(tally_of(tally, key) + total_for(patterns, key) <= u32::MAX);
        }
    }
}

/// A list of a tally has one entry for each key and its count, whatever the order, and no other.
pub proof fn law_lists(entries: Seq<(Vec<u8>, u32)>, tally: Map<Seq<u8>, u32>, key: Seq<u8>)
    requires
        lists(entries, tally),
    ensures
        tally.contains_key(key) == (exists|i: int|
            0 <= i < entries.len() && (#[trigger] entries[i]).0@ == key),
        forall|i: int|
            0 <= i < entries.len() && (#[trigger] entries[i]).0@ == key ==> entries[i].1
                == tally[key],
        forall|i: int, j: int|
            0 <= i < entries.len() && 0 <= j < entries.len() && (#[trigger] entries[i]).0@ == key
                && (#[trigger] entries[j]).0@ == key ==> i == j,
{
    assert forall|i: int, j: int|
        0 <= i < entries.len() && 0 <= j < entries.len() && (#[trigger] entries[i]).0@ == key && (
        #[trigger] entries[j]).0@ == key implies i == j by {
        if i < j {
            assert(entries[i].0@ != entries[j].0@);
        }
        if j < i {
            assert(entries[j].0@ != entries[i].0@);
        }
    }
}

/// A list of counted patterns has one pair for each text and its count, whatever the order, and no
/// other.
pub proof fn law_lists_patterns(
    patterns: Seq<(Seq<char>, u32)>,
    counts: Map<Seq<char>, u32>,
    text: Seq<char>,
)
    requires
        lists_patterns(patterns, counts),
    ensures
        counts.contains_key(text) == (exists|i: int|
            0 <= i < patterns.len() && (#[trigger] patterns[i]).0 == text),
        forall|i: int|
            0 <= i < patterns.len() && (#[trigger] patterns[i]).0 == text ==> patterns[i].1
                == counts[text],
        forall|i: int, j: int|
            0 <= i < patterns.len() && 0 <= j < patterns.len() && (#[trigger] patterns[i]).0 == text
                && (#[trigger] patterns[j]).0 == text ==> i == j,
{
    assert forall|i: int, j: int|
        0 <= i < patterns.len() && 0 <= j < patterns.len() && (#[trigger] patterns[i]).0 == text && (
        #[trigger] patterns[j]).0 == text implies i == j by {
        if i < j {
            assert(patterns[i].0 != patterns[j].0);
        }
        if j < i {
            assert(patterns[j].0 != patterns[i].0);
        }
    }
}

/// A list of patterns is seen one by one, each with its text and its count.
pub proof fn law_patterns_are_seen_whole(patterns: Seq<(String, u32)>, i: int)
    requires
        0 <= i < patterns.len(),
    ensures
        pattern_views(patterns).len() == patterns.len(),
        pattern_views(patterns)[i].0 == patterns[i].0@,
        pattern_views(patterns)[i].1 == patterns[i].1,
{
}

/// What a chunk brings in for a text of fewer than 255 bytes is the count that the chunk gives for
/// that very text, and nothing where it gives none.
pub proof fn law_chunk_adds_its_counts(
    patterns: Seq<(Seq<char>, u32)>,
    counts: Map<Seq<char>, u32>,
    text: Seq<char>,
)
    requires
        lists_patterns(patterns, counts),
        vstd::utf8::encode_utf8(text).len() < 255,
    ensures
        total_for(patterns, vstd::utf8::encode_utf8(text)) == if counts.contains_key(text) {
            counts[text] as nat
        } else {
            0nat
        },
{
    let key = vstd::utf8::encode_utf8(text);
    law_lists_patterns(patterns, counts, text);
    assert forall|i: int|
        0 <= i < patterns.len() && (#[trigger] patterns[i]).0 != text implies pattern_key(
        patterns[i].0,
    ) != key by {
        law_pattern_key_is_the_text(patterns[i].0);
        law_patterns_are_counted_apart(patterns[i].0, text);
    }
    if counts.contains_key(text) {
        let i = choose|i: int| 0 <= i < patterns.len() && (#[trigger] patterns[i]).0 == text;
        assert forall|j: int| 0 <= j < patterns.len() && j != i implies pattern_key(
            (#[trigger] patterns[j]).0,
        ) != key by {
            assert(patterns[j].0 != text);
        }
        lemma_total_remove(patterns, i, key);
        let rest = patterns.remove(i);
        assert forall|j: int| 0 <= j < rest.len() implies pattern_key((#[trigger] rest[j]).0)
            != key by {
            assert(rest[j] == patterns[if j < i {
                j
            } else {
                j + 1
            }]);
        }
        lemma_total_unnamed(rest, key);
    } else {
        lemma_total_unnamed(patterns, key);
    }
}

} // verus!
