//! Counters over all that workers sent in.
use vstd::prelude::*;

use crate::table;
use crate::table::Table;
use crate::text;

verus! {

/// Counters since the start of the server.
pub struct Stats {
    pub start_time: u64,
    pub total_bytes_received: usize,
    pub total_bytes_written: usize,
    pub chunks_processed: usize,
    pub total_wet_files_processed: usize,
    pub active_colabs: Vec<String>,
    pub chunks_per_colab: Table<usize>,
    pub last_save_time: u64,
    pub cached_unique_patterns: usize,
}

/// What the counters hold, as contracts see it.
#[verifier::ext_equal]
pub struct StatsView {
    pub start_time: int,
    pub bytes_received: int,
    pub bytes_written: int,
    pub chunks: int,
    pub wet_files: int,
    pub active: Seq<Seq<char>>,
    pub per_colab: Seq<(Seq<char>, usize)>,
    pub last_save_time: int,
    pub unique_patterns: int,
}

impl View for Stats {
    type V = StatsView;

    open spec fn view(&self) -> StatsView {
        StatsView {
            start_time: self.start_time as int,
            bytes_received: self.total_bytes_received as int,
            bytes_written: self.total_bytes_written as int,
            chunks: self.chunks_processed as int,
            wet_files: self.total_wet_files_processed as int,
            active: text::texts(self.active_colabs@),
            per_colab: self.chunks_per_colab@,
            last_save_time: self.last_save_time as int,
            unique_patterns: self.cached_unique_patterns as int,
        }
    }
}

/// The names with `name` among them, added behind the others where it is new.
pub open spec fn with_name(names: Seq<Seq<char>>, name: Seq<char>) -> Seq<Seq<char>> {
    if names.contains(name) {
        names
    } else {
        names.push(name)
    }
}

/// The count under a name, zero where there is none.
pub open spec fn count_of(rows: Seq<(Seq<char>, usize)>, name: Seq<char>) -> int {
    if table::has_name(rows, name) {
        rows[table::place(rows, name) as int].1 as int
    } else {
        0
    }
}

/// The sum of all counts.
pub open spec fn sum_of(rows: Seq<(Seq<char>, usize)>) -> int
    decreases rows.len(),
{
    if rows.len() == 0 {
        0
    } else {
        sum_of(rows.drop_last()) + rows.last().1
    }
}

impl StatsView {
    /// The counters can take one more chunk.
    pub open spec fn has_room(self, payload_len: int, colab: Seq<char>, path: int) -> bool {
        &&& self.bytes_received + payload_len <= usize::MAX
        &&& self.chunks < usize::MAX
        &&& path != -1 ==> self.wet_files < usize::MAX
        &&& count_of(self.per_colab, colab) < usize::MAX
    }

    /// The counters after a chunk from `colab`; it ends a file unless `path` is -1.
    pub open spec fn recorded(self, payload_len: int, colab: Seq<char>, path: int) -> StatsView {
        StatsView {
            bytes_received: self.bytes_received + payload_len,
            chunks: self.chunks + 1,
            wet_files: if path != -1 {
                self.wet_files + 1
            } else {
                self.wet_files
            },
            active: with_name(self.active, colab),
            per_colab: table::inserted(
                self.per_colab,
                colab,
                (count_of(self.per_colab, colab) + 1) as usize,
            ),
            ..self
        }
    }

    /// Each chunk is counted once for the worker it came from; the workers are those with a
    /// chunk; no more files ended than chunks came in.
    pub open spec fn adds_up(self) -> bool {
        &&& table::distinct(self.per_colab)
        &&& self.active.no_duplicates()
        &&& sum_of(self.per_colab) == self.chunks
        &&& forall|name: Seq<char>|
            self.active.contains(name) == #[trigger] table::has_name(self.per_colab, name)
        &&& self.wet_files <= self.chunks
    }
}

impl Stats {
    /// The counters at the start.
    pub fn new(now: u64) -> (s: Stats)
        ensures
            s@ == (StatsView {
                start_time: now as int,
                bytes_received: 0,
                bytes_written: 0,
                chunks: 0,
                wet_files: 0,
                active: Seq::empty(),
                per_colab: Seq::empty(),
                last_save_time: now as int,
                unique_patterns: 0,
            }),
            s@.adds_up(),
    {
        let s = Stats {
            start_time: now,
            total_bytes_received: 0,
            total_bytes_written: 0,
            chunks_processed: 0,
            total_wet_files_processed: 0,
            active_colabs: Vec::new(),
            chunks_per_colab: Table::new(),
            last_save_time: now,
            cached_unique_patterns: 0,
        };
        assert(s@.active =~= Seq::empty());
        s
    }

    fn is_active(&self, colab_id: &str) -> (r: bool)
        ensures
            r == self@.active.contains(colab_id@),
    {
        let mut i: usize = 0;
        while i < self.active_colabs.len()
            invariant
                i <= self.active_colabs@.len(),
                forall|k: int| 0 <= k < i ==> (#[trigger] self@.active[k]) != colab_id@,
            decreases self.active_colabs@.len() - i,
        {
            if text::same_text(self.active_colabs[i].as_str(), colab_id) {
                assert(self@.active[i as int] == colab_id@);
                return true;
            }
            i = i + 1;
        }
        false
    }

    fn chunks_of(&self, colab_id: &str) -> (n: usize)
        ensures
            n == count_of(self@.per_colab, colab_id@),
    {
        match self.chunks_per_colab.find(colab_id) {
            Some(i) => *self.chunks_per_colab.value_at(i),
            None => 0,
        }
    }

    /// Whether the counters can take one more chunk.
    pub fn can_record(&self, payload_len: usize, colab_id: &str, path_index: i32) -> (can: bool)
        ensures
            can == self@.has_room(payload_len as int, colab_id@, path_index as int),
    {
        payload_len <= usize::MAX - self.total_bytes_received && self.chunks_processed < usize::MAX
            && (path_index == -1 || self.total_wet_files_processed < usize::MAX) && self.chunks_of(
            colab_id,
        ) < usize::MAX
    }

    /// Counts a chunk, and gives it its number.
    pub fn record_chunk(&mut self, payload_len: usize, colab_id: String, path_index: i32) -> (
        chunk_id: usize)
        requires
            old(self)@.has_room(payload_len as int, colab_id@, path_index as int),
        ensures
            final(self)@ == old(self)@.recorded(payload_len as int, colab_id@, path_index as int),
            chunk_id == final(self)@.chunks,
            old(self)@.adds_up() ==> final(self)@.adds_up(),
    {
        proof {
            if self@.adds_up() {
                law_chunks_add_up(self@, payload_len as int, colab_id@, path_index as int);
            }
        }
        self.total_bytes_received = self.total_bytes_received + payload_len;
        self.chunks_processed = self.chunks_processed + 1;
        if path_index != -1 {
            self.total_wet_files_processed = self.total_wet_files_processed + 1;
        }
        if !self.is_active(colab_id.as_str()) {
            self.active_colabs.push(colab_id.clone());
            assert(self@.active =~= old(self)@.active.push(colab_id@));
        }
        let chunks = self.chunks_of(colab_id.as_str()) + 1;
        self.chunks_per_colab.insert(colab_id, chunks);
        self.chunks_processed
    }

    /// Keeps the number of patterns in the database.
    pub fn cache_unique_patterns(&mut self, count: usize)
        ensures
            final(self)@ == (StatsView { unique_patterns: count as int, ..old(self)@ }),
            old(self)@.adds_up() ==> final(self)@.adds_up(),
    {
        self.cached_unique_patterns = count;
    }
}

proof fn lemma_sum_update(rows: Seq<(Seq<char>, usize)>, i: int, name: Seq<char>, n: usize)
    requires
        0 <= i < rows.len(),
    ensures
        sum_of(rows.update(i, (name, n))) == sum_of(rows) - rows[i].1 + n,
    decreases rows.len(),
{
    let after = rows.update(i, (name, n));
    if i == rows.len() - 1 {
        assert(after.drop_last() =~= rows.drop_last());
    } else {
        lemma_sum_update(rows.drop_last(), i, name, n);
        assert(after.drop_last() =~= rows.drop_last().update(i, (name, n)));
    }
}

/// The counters of the workers always add up to the number of chunks, and the active workers are
/// those that sent one.
pub proof fn law_chunks_add_up(s: StatsView, payload_len: int, colab: Seq<char>, path: int)
    requires
        s.adds_up(),
        s.has_room(payload_len, colab, path),
    ensures
        s.recorded(payload_len, colab, path).adds_up(),
{
    let rows = s.per_colab;
    let n = (count_of(rows, colab) + 1) as usize;
    let after = table::inserted(rows, colab, n);
    let t = s.recorded(payload_len, colab, path);
    table::lemma_place(rows, colab);
    table::lemma_inserted(rows, colab, n);
    if table::has_name(rows, colab) {
        lemma_sum_update(rows, table::place(rows, colab) as int, colab, n);
    } else {
        assert(after.drop_last() =~= rows);
    }
    assert forall|name: Seq<char>|
        t.active.contains(name) == #[trigger] table::has_name(after, name) by {
        assert(table::as_map(after).contains_key(name) == table::as_map(rows).insert(
            colab,
            n,
        ).contains_key(name));
        assert(s.active.contains(name) == table::has_name(rows, name));
        assert(s.active.contains(colab) == table::has_name(rows, colab));
        if !s.active.contains(colab) {
            if s.active.contains(name) {
                let k = choose|k: int| 0 <= k < s.active.len() && s.active[k] == name;
                assert(t.active[k] == name);
            }
            assert(t.active[s.active.len() as int] == colab);
        }
    }
}

/// A chunk raises the count of its worker by one and leaves those of the others.
pub proof fn lemma_recorded_for(
    s: StatsView,
    payload_len: int,
    colab: Seq<char>,
    path: int,
    name: Seq<char>,
)
    requires
        s.adds_up(),
        s.has_room(payload_len, colab, path),
    ensures
        ({
            let after = s.recorded(payload_len, colab, path);
            &&& count_of(after.per_colab, name) == count_of(s.per_colab, name) + if name == colab {
                1int
            } else {
                0int
            }
            &&& after.active.contains(name) == (s.active.contains(name) || name == colab)
        }),
{
    let rows = s.per_colab;
    let n = (count_of(rows, colab) + 1) as usize;
    let after = s.recorded(payload_len, colab, path);
    table::lemma_inserted(rows, colab, n);
    law_chunks_add_up(s, payload_len, colab, path);
    let old_map = table::as_map(rows);
    let new_map = table::as_map(after.per_colab);
    assert(new_map == old_map.insert(colab, n));
    assert(new_map.contains_key(name) == (name == colab || old_map.contains_key(name)));
    assert(old_map.contains_key(name) == table::has_name(rows, name));
    assert(new_map.contains_key(name) == table::has_name(after.per_colab, name));
    if new_map.contains_key(name) {
        assert(count_of(after.per_colab, name) == new_map[name]);
    }
    assert(after.active.contains(name) == table::has_name(after.per_colab, name));
    assert(s.active.contains(name) == table::has_name(rows, name));
}

/// A chunk adds the length of its payload to the bytes, one to the chunks, and one to the files
/// where it ends a file. Its worker is among the active ones then, behind the others where it is
/// new. The times, the bytes written and the number of patterns stay.
pub proof fn law_one_chunk(s: StatsView, payload_len: int, colab: Seq<char>, path: int)
    ensures
        ({
            let after = s.recorded(payload_len, colab, path);
            &&& after.bytes_received == s.bytes_received + payload_len
            &&& after.chunks == s.chunks + 1
            &&& path != -1 ==> after.wet_files == s.wet_files + 1
            &&& path == -1 ==> after.wet_files == s.wet_files
            &&& s.active.contains(colab) ==> after.active == s.active
            &&& !s.active.contains(colab) ==> after.active == s.active.push(colab)
            &&& after.start_time == s.start_time
            &&& after.bytes_written == s.bytes_written
            &&& after.last_save_time == s.last_save_time
            &&& after.unique_patterns == s.unique_patterns
        }),
{
}

/// A chunk is counted for its own worker: where it has a count that grows by one, else it gets a
/// count of one behind the others; the counts of the others stay.
pub proof fn law_one_chunk_for_its_worker(
    s: StatsView,
    payload_len: int,
    colab: Seq<char>,
    path: int,
    i: int,
)
    requires
        table::distinct(s.per_colab),
        s.has_room(payload_len, colab, path),
        0 <= i <= s.per_colab.len(),
    ensures
        ({
            let before = s.per_colab;
            let after = s.recorded(payload_len, colab, path).per_colab;
            &&& i < before.len() && before[i].0 != colab ==> after[i] == before[i]
            &&& i < before.len() && before[i].0 == colab ==> after.len() == before.len()
                && after[i].0 == colab && after[i].1 == before[i].1 + 1
            &&& (forall|k: int| 0 <= k < before.len() ==> (#[trigger] before[k]).0 != colab)
                ==> after == before.push((colab, 1usize))
        }),
{
    let before = s.per_colab;
    table::lemma_place(before, colab);
    if i < before.len() && before[i].0 == colab {
        let p = table::place(before, colab) as int;
        if p < i {
            assert(before[p].0 != before[i].0);
        }
    }
}

/// The counters have room for a chunk exactly where none of them leaves its range.
pub proof fn law_room_for_a_chunk(s: StatsView, payload_len: int, colab: Seq<char>, path: int)
    requires
        table::distinct(s.per_colab),
    ensures
        s.has_room(payload_len, colab, path) == {
            &&& s.bytes_received + payload_len <= usize::MAX
            &&& s.chunks + 1 <= usize::MAX
            &&& path != -1 ==> s.wet_files + 1 <= usize::MAX
            &&& forall|i: int|
                0 <= i < s.per_colab.len() && (#[trigger] s.per_colab[i]).0 == colab
                    ==> s.per_colab[i].1 + 1 <= usize::MAX
        },
{
    let rows = s.per_colab;
    table::lemma_place(rows, colab);
    let p = table::place(rows, colab) as int;
    assert forall|i: int| 0 <= i < rows.len() && (#[trigger] rows[i]).0 == colab implies i == p by {
        if p < i {
            assert(rows[p].0 != rows[i].0);
        }
    }
    if table::has_name(rows, colab) {
        assert(rows[p].0 == colab);
    }
}

/// The count of a worker is the one in its row, and the sum of the counts is the sum over the
/// rows.
pub proof fn law_counts_of_workers(
    a: Seq<(Seq<char>, usize)>,
    b: Seq<(Seq<char>, usize)>,
    row: (Seq<char>, usize),
    name: Seq<char>,
    i: int,
)
    requires
        table::distinct(a),
    ensures
        0 <= i < a.len() && a[i].0 == name ==> count_of(a, name) == a[i].1,
        (forall|k: int| 0 <= k < a.len() ==> (#[trigger] a[k]).0 != name) ==> count_of(a, name) == 0,
        sum_of(Seq::empty()) == 0,
        sum_of(seq![row]) == row.1,
        sum_of(a + b) == sum_of(a) + sum_of(b),
    decreases b.len(),
{
    table::lemma_place(a, name);
    if 0 <= i < a.len() && a[i].0 == name {
        let p = table::place(a, name) as int;
        if p < i {
            assert(a[p].0 != a[i].0);
        }
    }
    reveal_with_fuel(sum_of, 2);
    assert(seq![row].drop_last() =~= Seq::empty());
    if b.len() == 0 {
        assert(a + b =~= a);
    } else {
        law_counts_of_workers(a, b.drop_last(), row, name, i);
        assert((a + b).drop_last() =~= a + b.drop_last());
    }
}

/// The counters are seen with all that they hold.
pub proof fn law_counters_are_seen_whole(s: Stats)
    ensures
        s@ == (StatsView {
            start_time: s.start_time as int,
            bytes_received: s.total_bytes_received as int,
            bytes_written: s.total_bytes_written as int,
            chunks: s.chunks_processed as int,
            wet_files: s.total_wet_files_processed as int,
            active: text::texts(s.active_colabs@),
            per_colab: s.chunks_per_colab@,
            last_save_time: s.last_save_time as int,
            unique_patterns: s.cached_unique_patterns as int,
        }),
{
}

/// Counters that add up count each chunk once, for the worker that it came from; the active
/// workers are those with a count, each once, and no more files ended than chunks came in.
pub proof fn law_counters_that_add_up(s: StatsView, name: Seq<char>)
    requires
        s.adds_up(),
    ensures
        sum_of(s.per_colab) == s.chunks,
        s.active.no_duplicates(),
        s.active.contains(name) == (exists|i: int|
            0 <= i < s.per_colab.len() && (#[trigger] s.per_colab[i]).0 == name),
        s.wet_files <= s.chunks,
{
    table::law_names_are_found(s.per_colab, name);
    assert(s.active.contains(name) == table::has_name(s.per_colab, name));
}

} // verus!
