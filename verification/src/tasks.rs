//! Handing out the files of a dump to workers, in batches.
use vstd::prelude::*;

use crate::batch_id;
use crate::dumps;
use crate::table;
use crate::table::Table;
use crate::task_laws;
use crate::text;

verus! {

/// A worker that is silent for longer loses its batch.
pub const TASK_TIMEOUT_SECONDS: u64 = 7200;

/// The most files in a batch.
pub const BATCH_SIZE: i32 = 5;

/// A run of files that was handed out. Without a worker it awaits the next one that asks.
#[derive(Clone, Debug, PartialEq, Eq)]
pub struct BatchInfo {
    pub colab_id: Option<String>,
    pub dump_id: String,
    pub start_index: i32,
    pub end_index: i32,
    pub start_time: u64,
    pub last_ping: u64,
    pub resume_path_index: i32,
}

/// What a batch holds, as contracts see it.
#[verifier::ext_equal]
pub struct BatchView {
    pub colab_id: Option<Seq<char>>,
    pub dump_id: Seq<char>,
    pub start_index: int,
    pub end_index: int,
    pub start_time: int,
    pub last_ping: int,
    pub resume_path_index: int,
}

impl View for BatchInfo {
    type V = BatchView;

    open spec fn view(&self) -> BatchView {
        BatchView {
            colab_id: text::opt_text(self.colab_id),
            dump_id: self.dump_id@,
            start_index: self.start_index as int,
            end_index: self.end_index as int,
            start_time: self.start_time as int,
            last_ping: self.last_ping as int,
            resume_path_index: self.resume_path_index as int,
        }
    }
}

/// The dumps that wait, the one that is worked on, and those that are done. Of the current dump
/// the files up to `next_path_index` were handed out.
pub struct TaskState {
    pub pending_dumps: Vec<String>,
    pub current_dump: Option<String>,
    pub current_dump_total_files: i32,
    pub next_path_index: i32,
    pub in_progress_batches: Table<BatchInfo>,
    pub completed_dumps: Vec<String>,
}

/// What the state holds, as contracts see it.
#[verifier::ext_equal]
pub struct TasksView {
    pub pending: Seq<Seq<char>>,
    pub current: Option<Seq<char>>,
    pub total: int,
    pub next: int,
    pub batches: Seq<(Seq<char>, BatchView)>,
    pub completed: Seq<Seq<char>>,
}

/// The rows of a batch table, by what they hold.
pub open spec fn batch_views(rows: Seq<(Seq<char>, BatchInfo)>) -> Seq<(Seq<char>, BatchView)> {
    Seq::new(rows.len(), |i: int| (rows[i].0, rows[i].1@))
}

impl View for TaskState {
    type V = TasksView;

    open spec fn view(&self) -> TasksView {
        TasksView {
            pending: text::texts(self.pending_dumps@),
            current: text::opt_text(self.current_dump),
            total: self.current_dump_total_files as int,
            next: self.next_path_index as int,
            batches: batch_views(self.in_progress_batches@),
            completed: text::texts(self.completed_dumps@),
        }
    }
}

/// Who asks for a task.
#[derive(Clone, Debug, PartialEq, Eq)]
pub struct GetTaskQuery {
    pub colab_id: Option<String>,
}

/// The task that a worker is given.
#[derive(Clone, Debug, PartialEq, Eq)]
pub struct GetTaskResponse {
    pub status: String,
    pub dump_id: Option<String>,
    pub start_index: i32,
    pub end_index: i32,
    pub resume_index: i32,
    pub message: Option<String>,
}

/// What an answer holds, as contracts see it.
#[verifier::ext_equal]
pub struct ReplyView {
    pub status: Seq<char>,
    pub dump_id: Option<Seq<char>>,
    pub start_index: int,
    pub end_index: int,
    pub resume_index: int,
    pub message: Option<Seq<char>>,
}

impl View for GetTaskResponse {
    type V = ReplyView;

    open spec fn view(&self) -> ReplyView {
        ReplyView {
            status: self.status@,
            dump_id: text::opt_text(self.dump_id),
            start_index: self.start_index as int,
            end_index: self.end_index as int,
            resume_index: self.resume_index as int,
            message: text::opt_text(self.message),
        }
    }
}

impl BatchView {
    /// The worker has been silent for too long.
    pub open spec fn timed_out(self, now: int) -> bool {
        now - self.last_ping > TASK_TIMEOUT_SECONDS
    }

    /// The batch without its worker, where that has been silent for too long.
    pub open spec fn checked(self, now: int) -> BatchView {
        if self.timed_out(now) {
            BatchView { colab_id: None, ..self }
        } else {
            self
        }
    }

    /// The answer that gives this batch to a worker.
    pub open spec fn reply(self) -> ReplyView {
        ReplyView {
            status: "success"@,
            dump_id: Some(self.dump_id),
            start_index: self.start_index,
            end_index: self.end_index,
            resume_index: self.resume_path_index,
            message: None,
        }
    }
}

/// The answer where there is nothing to do.
pub open spec fn nothing_to_do() -> ReplyView {
    ReplyView {
        status: "empty"@,
        dump_id: None,
        start_index: 0,
        end_index: 0,
        resume_index: 0,
        message: Some("No pending tasks"@),
    }
}

/// The first batch that `who` holds, or the number of batches where there is none. Nobody holds
/// the batches that await a worker.
pub open spec fn held_by(batches: Seq<(Seq<char>, BatchView)>, who: Option<Seq<char>>) -> nat
    decreases batches.len(),
{
    if batches.len() == 0 || batches[0].1.colab_id == who {
        0
    } else {
        1 + held_by(batches.drop_first(), who)
    }
}

/// What a worker that asks is given.
pub enum Choice {
    /// The batch that it holds already.
    Held(int),
    /// A batch that nobody holds.
    Unheld(int),
    /// The next files of the current dump.
    Fresh,
    /// Nothing.
    Nothing,
}

impl TasksView {
    /// No batch was heard of after `now`.
    pub open spec fn heard_by(self, now: int) -> bool {
        forall|i: int| 0 <= i < self.batches.len() ==> (#[trigger] self.batches[i]).1.last_ping
            <= now
    }

    /// Some worker has been silent for too long.
    pub open spec fn any_timed_out(self, now: int) -> bool {
        exists|i: int| 0 <= i < self.batches.len() && (#[trigger] self.batches[i]).1.timed_out(now)
    }

    /// The state after workers that were silent for too long lost their batches.
    pub open spec fn checked(self, now: int) -> TasksView {
        TasksView {
            batches: Seq::new(
                self.batches.len(),
                |i: int| (self.batches[i].0, self.batches[i].1.checked(now)),
            ),
            ..self
        }
    }

    /// What `worker` is given when it asks: its own batch, else one that nobody holds, else the
    /// next files.
    pub open spec fn choice(self, worker: Seq<char>) -> Choice {
        let own = held_by(self.batches, Some(worker));
        let free = held_by(self.batches, None);
        if own < self.batches.len() {
            Choice::Held(own as int)
        } else if free < self.batches.len() {
            Choice::Unheld(free as int)
        } else if self.current is Some && self.next < self.total {
            Choice::Fresh
        } else {
            Choice::Nothing
        }
    }

    /// Where the next batch ends.
    pub open spec fn fresh_end(self) -> int {
        if self.next + BATCH_SIZE > self.total {
            self.total
        } else {
            self.next + BATCH_SIZE
        }
    }

    /// The next batch, in the hands of `worker`.
    pub open spec fn fresh_batch(self, worker: Seq<char>, now: int) -> BatchView {
        BatchView {
            colab_id: Some(worker),
            dump_id: self.current->0,
            start_index: self.next,
            end_index: self.fresh_end(),
            start_time: now,
            last_ping: now,
            resume_path_index: self.next,
        }
    }

    /// The batch that `worker` is given, as it is from then on.
    pub open spec fn given(self, worker: Seq<char>, now: int) -> Option<BatchView> {
        match self.choice(worker) {
            Choice::Held(i) => Some(BatchView { last_ping: now, ..self.batches[i].1 }),
            Choice::Unheld(i) => Some(
                BatchView {
                    colab_id: Some(worker),
                    last_ping: now,
                    start_time: now,
                    ..self.batches[i].1
                },
            ),
            Choice::Fresh => Some(self.fresh_batch(worker, now)),
            Choice::Nothing => None,
        }
    }

    /// The answer to `worker`.
    pub open spec fn reply(self, worker: Seq<char>, now: int) -> ReplyView {
        match self.given(worker, now) {
            Some(batch) => batch.reply(),
            None => nothing_to_do(),
        }
    }

    /// The state after `worker` was given what it asked for.
    pub open spec fn assigned(self, worker: Seq<char>, now: int) -> TasksView {
        match self.choice(worker) {
            Choice::Held(i) | Choice::Unheld(i) => TasksView {
                batches: self.batches.update(
                    i,
                    (self.batches[i].0, self.given(worker, now)->0),
                ),
                ..self
            },
            Choice::Fresh => TasksView {
                batches: table::inserted(
                    self.batches,
                    batch_id::batch_name(self.current->0, self.next),
                    self.given(worker, now)->0,
                ),
                next: self.fresh_end(),
                ..self
            },
            Choice::Nothing => self,
        }
    }

    /// The next batch can be cut without its end leaving 32 bits.
    pub open spec fn has_room(self, worker: Seq<char>) -> bool {
        self.choice(worker) is Fresh ==> self.next + BATCH_SIZE <= i32::MAX
    }

    /// The batch is in somebody's hands, or awaits a worker.
    pub open spec fn knows(self, dump: Seq<char>, start: int) -> bool {
        table::has_name(self.batches, batch_id::batch_name(dump, start))
    }

    /// The row of a batch.
    pub open spec fn row(self, dump: Seq<char>, start: int) -> int {
        table::place(self.batches, batch_id::batch_name(dump, start)) as int
    }

    /// The state after a worker sent in part of a batch: file `path`, or no file as yet where
    /// `path` is -1.
    pub open spec fn progressed(self, dump: Seq<char>, start: int, path: int, now: int) -> TasksView {
        if self.knows(dump, start) {
            let i = self.row(dump, start);
            let batch = self.batches[i].1;
            let heard = BatchView {
                last_ping: now,
                resume_path_index: if path != -1 {
                    path + 1
                } else {
                    batch.resume_path_index
                },
                ..batch
            };
            TasksView { batches: self.batches.update(i, (self.batches[i].0, heard)), ..self }
        } else {
            self
        }
    }

    /// Every file of `dump`, the current one, was handed out, and no batch is left.
    pub open spec fn finished(self, dump: Seq<char>) -> bool {
        self.current == Some(dump) && self.next >= self.total && self.batches.len() == 0
    }

    /// The state after a batch was completed, and with it the dump where that was the last one.
    pub open spec fn completed(self, dump: Seq<char>, start: int) -> TasksView {
        if self.knows(dump, start) {
            let without = TasksView {
                batches: self.batches.remove(self.row(dump, start)),
                ..self
            };
            if without.finished(dump) {
                TasksView {
                    completed: self.completed.push(dump),
                    current: None,
                    total: 0,
                    ..without
                }
            } else {
                without
            }
        } else {
            self
        }
    }

    /// A dump is to be started.
    pub open spec fn wants_dump(self) -> bool {
        self.current is None && self.pending.len() > 0
    }

    /// The state after `dump`, of `count` files, was started.
    pub open spec fn installed(self, dump: Seq<char>, count: int) -> TasksView {
        TasksView {
            current: Some(dump),
            total: count,
            next: 0,
            batches: Seq::empty(),
            ..self
        }
    }

    /// The state after the next dump was started, where one was to be.
    pub open spec fn initialized(self, count: int) -> TasksView {
        if self.wants_dump() {
            TasksView { pending: self.pending.drop_first(), ..self }.installed(
                self.pending[0],
                count,
            )
        } else {
            self
        }
    }
}

pub proof fn lemma_held_by(batches: Seq<(Seq<char>, BatchView)>, who: Option<Seq<char>>)
    ensures
        held_by(batches, who) <= batches.len(),
        forall|i: int|
            0 <= i < held_by(batches, who) ==> (#[trigger] batches[i]).1.colab_id != who,
        held_by(batches, who) < batches.len() ==> batches[held_by(
            batches,
            who,
        ) as int].1.colab_id == who,
    decreases batches.len(),
{
    if batches.len() > 0 && batches[0].1.colab_id != who {
        let rest = batches.drop_first();
        lemma_held_by(rest, who);
        assert forall|i: int| 0 <= i < held_by(batches, who) implies (
        #[trigger] batches[i]).1.colab_id != who by {
            if i > 0 {
                assert(batches[i] == rest[i - 1]);
            }
        }
        if held_by(batches, who) < batches.len() {
            assert(batches[held_by(batches, who) as int] == rest[held_by(rest, who) as int]);
        }
    }
}

pub proof fn lemma_held_by_is(batches: Seq<(Seq<char>, BatchView)>, who: Option<Seq<char>>, k: int)
    requires
        0 <= k <= batches.len(),
        forall|i: int| 0 <= i < k ==> (#[trigger] batches[i]).1.colab_id != who,
        k < batches.len() ==> batches[k].1.colab_id == who,
    ensures
        held_by(batches, who) == k,
{
    lemma_held_by(batches, who);
    let p = held_by(batches, who) as int;
    if p < k {
        assert(batches[p].1.colab_id != who);
    }
    if k < p {
        assert(batches[k].1.colab_id != who);
    }
}

/// A batch table and its views have their names in the same places.
proof fn lemma_places(rows: Seq<(Seq<char>, BatchInfo)>, name: Seq<char>)
    ensures
        table::place(rows, name) == table::place(batch_views(rows), name),
        table::has_name(rows, name) == table::has_name(batch_views(rows), name),
{
    table::lemma_place(rows, name);
    let k = table::place(rows, name) as int;
    let views = batch_views(rows);
    assert forall|i: int| 0 <= i < k implies (#[trigger] views[i]).0 != name by {
        assert(rows[i].0 != name);
    }
    table::lemma_place_is(views, name, k);
}

impl BatchInfo {
    fn is_held_by(&self, worker: &str) -> (r: bool)
        ensures
            r == (self@.colab_id == Some(worker@)),
    {
        match &self.colab_id {
            Some(id) => text::same_text(id.as_str(), worker),
            None => false,
        }
    }

    fn response(&self) -> (r: GetTaskResponse)
        ensures
            r@ == self@.reply(),
    {
        GetTaskResponse {
            status: "success".to_owned(),
            dump_id: Some(self.dump_id.clone()),
            start_index: self.start_index,
            end_index: self.end_index,
            resume_index: self.resume_path_index,
            message: None,
        }
    }
}

impl TaskState {
    /// Nothing is waiting, worked on or done.
    pub fn new() -> (ts: TaskState)
        ensures
            ts@ == (TasksView {
                pending: Seq::empty(),
                current: None,
                total: 0,
                next: 0,
                batches: Seq::empty(),
                completed: Seq::empty(),
            }),
            task_laws::consistent(ts@),
            task_laws::one_batch_each(ts@),
    {
        let ts = TaskState {
            pending_dumps: Vec::new(),
            current_dump: None,
            current_dump_total_files: 0,
            next_path_index: 0,
            in_progress_batches: Table::new(),
            completed_dumps: Vec::new(),
        };
        assert(ts@.pending =~= Seq::empty());
        assert(ts@.batches =~= Seq::empty());
        assert(ts@.completed =~= Seq::empty());
        ts
    }

    /// Queues the dumps of a list, in place of those that waited before.
    pub fn load_dump_list(&mut self, list: &str)
        ensures
            final(self)@ == (TasksView { pending: dumps::dump_queue(list@), ..old(self)@ }),
            task_laws::consistent(old(self)@) ==> task_laws::consistent(final(self)@),
            task_laws::one_batch_each(old(self)@) ==> task_laws::one_batch_each(final(self)@),
    {
        self.pending_dumps = dumps::parse_dump_list(list);
    }

    /// Takes the next dump from the queue, where none is worked on.
    pub fn take_next_dump(&mut self) -> (next: Option<String>)
        ensures
            match next {
                Some(dump) => {
                    &&& old(self)@.wants_dump()
                    &&& dump@ == old(self)@.pending[0]
                    &&& final(self)@ == (TasksView {
                        pending: old(self)@.pending.drop_first(),
                        ..old(self)@
                    })
                },
                None => !old(self)@.wants_dump() && final(self)@ == old(self)@,
            },
            next is Some == (old(self)@.current is None && old(self)@.pending.len() > 0),
            task_laws::consistent(old(self)@) ==> task_laws::consistent(final(self)@),
            task_laws::one_batch_each(old(self)@) ==> task_laws::one_batch_each(final(self)@),
    {
        if self.current_dump.is_none() && self.pending_dumps.len() > 0 {
            let dump = self.pending_dumps.remove(0);
            assert(text::texts(self.pending_dumps@) =~= old(self)@.pending.drop_first());
            Some(dump)
        } else {
            None
        }
    }

    /// Starts a dump of `count` files.
    pub fn install_dump(&mut self, dump: String, count: i32)
        ensures
            final(self)@ == old(self)@.installed(dump@, count as int),
            task_laws::consistent(final(self)@),
            task_laws::one_batch_each(final(self)@),
    {
        self.current_dump = Some(dump);
        self.current_dump_total_files = count;
        self.next_path_index = 0;
        self.in_progress_batches.clear();
        assert(self@.batches =~= Seq::empty());
    }

    /// Whether no batch was heard of after `now`.
    pub fn check_clock(&self, now: u64) -> (ok: bool)
        ensures
            ok == self@.heard_by(now as int),
    {
        let mut i: usize = 0;
        while i < self.in_progress_batches.len()
            invariant
                i <= self.in_progress_batches@.len(),
                forall|k: int| 0 <= k < i ==> (#[trigger] self@.batches[k]).1.last_ping <= now,
            decreases self.in_progress_batches@.len() - i,
        {
            if self.in_progress_batches.value_at(i).last_ping > now {
                assert(self@.batches[i as int].1.last_ping > now);
                return false;
            }
            i = i + 1;
        }
        true
    }

    /// Takes their batches from the workers that were silent for too long, and says whether
    /// there were any.
    pub fn check_task_timeouts(&mut self, now: u64) -> (released: bool)
        requires
            old(self)@.heard_by(now as int),
        ensures
            final(self)@ == old(self)@.checked(now as int),
            released == old(self)@.any_timed_out(now as int),
            task_laws::consistent(old(self)@) ==> task_laws::consistent(final(self)@),
            task_laws::one_batch_each(old(self)@) ==> task_laws::one_batch_each(final(self)@),
    {
        let ghost start = self@;
        proof {
            if task_laws::consistent(start) {
                task_laws::law_timeouts_lose_no_batch(start, now as int);
            }
        }
        let mut released = false;
        let mut i: usize = 0;
        while i < self.in_progress_batches.len()
            invariant
                start.heard_by(now as int),
                i <= start.batches.len(),
                self@.batches.len() == start.batches.len(),
                self@ == (TasksView { batches: self@.batches, ..start }),
                forall|k: int|
                    0 <= k < i ==> (#[trigger] self@.batches[k]) == (
                        start.batches[k].0,
                        start.batches[k].1.checked(now as int),
                    ),
                forall|k: int|
                    i <= k < start.batches.len() ==> (#[trigger] self@.batches[k])
                        == start.batches[k],
                released == (exists|k: int|
                    0 <= k < i && (#[trigger] start.batches[k]).1.timed_out(now as int)),
            decreases start.batches.len() - i,
        {
            let ghost before = self@;
            assert(before.batches[i as int] == start.batches[i as int]);
            let last_ping = self.in_progress_batches.value_at(i).last_ping;
            if now - last_ping > TASK_TIMEOUT_SECONDS {
                let info = self.in_progress_batches.value_mut(i);
                info.colab_id = None;
                released = true;
                assert(start.batches[i as int].1.timed_out(now as int));
            }
            assert forall|k: int| 0 <= k < start.batches.len() && k != i implies (
            #[trigger] self@.batches[k]) == before.batches[k] by {
            }
            i = i + 1;
        }
        assert(self@.batches =~= start.checked(now as int).batches);
        released
    }

    fn find_held(&self, worker: &str) -> (i: usize)
        ensures
            i == held_by(self@.batches, Some(worker@)),
    {
        let mut i: usize = 0;
        while i < self.in_progress_batches.len() && !self.in_progress_batches.value_at(
            i,
        ).is_held_by(worker)
            invariant
                i <= self.in_progress_batches@.len(),
                forall|k: int|
                    0 <= k < i ==> (#[trigger] self@.batches[k]).1.colab_id != Some(worker@),
            decreases self.in_progress_batches@.len() - i,
        {
            i = i + 1;
        }
        proof {
            lemma_held_by_is(self@.batches, Some(worker@), i as int);
        }
        i
    }

    fn find_unheld(&self) -> (i: usize)
        ensures
            i == held_by(self@.batches, None),
    {
        let mut i: usize = 0;
        while i < self.in_progress_batches.len() && self.in_progress_batches.value_at(
            i,
        ).colab_id.is_some()
            invariant
                i <= self.in_progress_batches@.len(),
                forall|k: int| 0 <= k < i ==> (#[trigger] self@.batches[k]).1.colab_id is Some,
            decreases self.in_progress_batches@.len() - i,
        {
            i = i + 1;
        }
        proof {
            lemma_held_by_is(self@.batches, None, i as int);
        }
        i
    }

    /// Gives `worker` its own batch, else one that nobody holds, else the next files.
    fn assign(&mut self, worker: String, now: u64) -> (response: GetTaskResponse)
        requires
            old(self)@.has_room(worker@),
        ensures
            final(self)@ == old(self)@.assigned(worker@, now as int),
            response@ == old(self)@.reply(worker@, now as int),
    {
        let ghost start = self@;
        let own = self.find_held(worker.as_str());
        if own < self.in_progress_batches.len() {
            let info = self.in_progress_batches.value_mut(own);
            info.last_ping = now;
            let response = info.response();
            assert(self@.batches =~= start.assigned(worker@, now as int).batches);
            return response;
        }
        let free = self.find_unheld();
        if free < self.in_progress_batches.len() {
            let info = self.in_progress_batches.value_mut(free);
            info.colab_id = Some(worker);
            info.last_ping = now;
            info.start_time = now;
            let response = info.response();
            assert(self@.batches =~= start.assigned(worker@, now as int).batches);
            return response;
        }
        if let Some(current_dump) = text::clone_text(&self.current_dump) {
            if self.next_path_index < self.current_dump_total_files {
                let start_index = self.next_path_index;
                let mut end_index = start_index + BATCH_SIZE;
                if end_index > self.current_dump_total_files {
                    end_index = self.current_dump_total_files;
                }
                let id = batch_id::batch_id(current_dump.as_str(), start_index);
                let info = BatchInfo {
                    colab_id: Some(worker),
                    dump_id: current_dump,
                    start_index,
                    end_index,
                    start_time: now,
                    last_ping: now,
                    resume_path_index: start_index,
                };
                let response = info.response();
                proof {
                    lemma_places(self.in_progress_batches@, id@);
                }
                self.in_progress_batches.insert(id, info);
                self.next_path_index = end_index;
                assert(self@.batches =~= start.assigned(worker@, now as int).batches);
                return response;
            }
        }
        GetTaskResponse {
            status: "empty".to_owned(),
            dump_id: None,
            start_index: 0,
            end_index: 0,
            resume_index: 0,
            message: Some("No pending tasks".to_owned()),
        }
    }

    /// Whether the request can be answered: the clock has not gone back, and the next batch,
    /// where one is to be cut, ends within 32 bits.
    pub fn can_get_task(&self, query: &GetTaskQuery, now: u64) -> (can: bool)
        ensures
            can == (self@.heard_by(now as int) && self@.checked(now as int).has_room(
                text::named(text::opt_text(query.colab_id)),
            )),
    {
        if !self.check_clock(now) {
            return false;
        }
        let worker = text::or_unknown(text::clone_text(&query.colab_id));
        let ghost checked = self@.checked(now as int);
        let mut i: usize = 0;
        while i < self.in_progress_batches.len()
            invariant
                self@.heard_by(now as int),
                checked == self@.checked(now as int),
                worker@ == text::named(text::opt_text(query.colab_id)),
                i <= self.in_progress_batches@.len(),
                forall|k: int|
                    0 <= k < i ==> (#[trigger] checked.batches[k]).1.colab_id is Some
                        && checked.batches[k].1.colab_id != Some(worker@),
            decreases self.in_progress_batches@.len() - i,
        {
            let info = self.in_progress_batches.value_at(i);
            assert(self@.batches[i as int].1 == info@);
            assert(checked.batches[i as int].1 == info@.checked(now as int));
            if now - info.last_ping > TASK_TIMEOUT_SECONDS || info.colab_id.is_none()
                || info.is_held_by(worker.as_str()) {
                proof {
                    lemma_held_by(checked.batches, None);
                    lemma_held_by(checked.batches, Some(worker@));
                    assert(checked.batches[i as int].1.colab_id is None
                        || checked.batches[i as int].1.colab_id == Some(worker@));
                }
                return true;
            }
            i = i + 1;
        }
        proof {
            lemma_held_by_is(checked.batches, None, i as int);
            lemma_held_by_is(checked.batches, Some(worker@), i as int);
        }
        self.current_dump.is_none() || self.next_path_index >= self.current_dump_total_files
            || self.next_path_index <= i32::MAX - BATCH_SIZE
    }

    /// Answers a worker that asks for a task, after taking their batches from the workers that
    /// were silent for too long. Says also whether the state is to be saved.
    pub fn handle_get_task(&mut self, query: GetTaskQuery, now: u64) -> (answer: (
        GetTaskResponse,
        bool,
    ))
        requires
            old(self)@.heard_by(now as int),
            old(self)@.checked(now as int).has_room(text::named(text::opt_text(query.colab_id))),
        ensures
            ({
                let worker = text::named(text::opt_text(query.colab_id));
                let checked = old(self)@.checked(now as int);
                &&& final(self)@ == checked.assigned(worker, now as int)
                &&& answer.0@ == checked.reply(worker, now as int)
                &&& answer.1 == (old(self)@.any_timed_out(now as int) || !(checked.choice(
                    worker,
                ) is Nothing))
            }),
            task_laws::consistent(old(self)@) ==> task_laws::consistent(final(self)@),
            task_laws::one_batch_each(old(self)@) ==> task_laws::one_batch_each(final(self)@),
    {
        let worker = text::or_unknown(query.colab_id);
        let released = self.check_task_timeouts(now);
        proof {
            if task_laws::consistent(self@) {
                task_laws::law_assignment_keeps_files_apart(self@, worker@, now as int);
            }
            if task_laws::one_batch_each(self@) {
                task_laws::law_one_batch_each(self@, worker@, Seq::empty(), 0, 0, 0, now as int);
            }
        }
        let response = self.assign(worker, now);
        let assigned = response.dump_id.is_some();
        (response, released || assigned)
    }

    /// Whether a batch is in somebody's hands, or awaits a worker.
    pub fn knows_batch(&self, dump_id: &str, start_index: i32) -> (known: bool)
        ensures
            known == self@.knows(dump_id@, start_index as int),
    {
        let id = batch_id::batch_id(dump_id, start_index);
        proof {
            lemma_places(self.in_progress_batches@, id@);
        }
        self.in_progress_batches.find(id.as_str()).is_some()
    }

    /// Notes that a worker sent in part of a batch, and says whether the state is to be saved.
    pub fn record_progress(
        &mut self,
        dump_id: &str,
        start_index: i32,
        path_index: i32,
        now: u64,
    ) -> (known: bool)
        requires
            old(self)@.knows(dump_id@, start_index as int) ==> path_index < i32::MAX,
        ensures
            final(self)@ == old(self)@.progressed(
                dump_id@,
                start_index as int,
                path_index as int,
                now as int,
            ),
            known == old(self)@.knows(dump_id@, start_index as int),
            task_laws::consistent(old(self)@) ==> task_laws::consistent(final(self)@),
            task_laws::one_batch_each(old(self)@) ==> task_laws::one_batch_each(final(self)@),
    {
        let ghost start = self@;
        let id = batch_id::batch_id(dump_id, start_index);
        proof {
            lemma_places(self.in_progress_batches@, id@);
            if task_laws::consistent(start) {
                task_laws::law_progress_keeps_files_apart(
                    start,
                    dump_id@,
                    start_index as int,
                    path_index as int,
                    now as int,
                );
            }
        }
        match self.in_progress_batches.find(id.as_str()) {
            Some(i) => {
                let info = self.in_progress_batches.value_mut(i);
                info.last_ping = now;
                if path_index != -1 {
                    info.resume_path_index = path_index + 1;
                }
                assert(self@.batches =~= start.progressed(
                    dump_id@,
                    start_index as int,
                    path_index as int,
                    now as int,
                ).batches);
                true
            },
            None => false,
        }
    }

    /// Notes that a batch was completed, and says whether the state is to be saved.
    pub fn handle_complete(&mut self, dump_id: &str, start_index: i32) -> (known: bool)
        ensures
            final(self)@ == old(self)@.completed(dump_id@, start_index as int),
            known == old(self)@.knows(dump_id@, start_index as int),
            task_laws::consistent(old(self)@) ==> task_laws::consistent(final(self)@),
            task_laws::one_batch_each(old(self)@) ==> task_laws::one_batch_each(final(self)@),
    {
        let ghost start = self@;
        let id = batch_id::batch_id(dump_id, start_index);
        proof {
            lemma_places(self.in_progress_batches@, id@);
            if task_laws::consistent(start) {
                task_laws::law_completion_keeps_files_apart(start, dump_id@, start_index as int);
            }
        }
        match self.in_progress_batches.find(id.as_str()) {
            Some(i) => {
                self.in_progress_batches.remove(i);
                assert(self@.batches =~= start.batches.remove(
                    start.row(dump_id@, start_index as int),
                ));
                let is_current = match &self.current_dump {
                    Some(current) => text::same_text(current.as_str(), dump_id),
                    None => false,
                };
                if is_current && self.next_path_index >= self.current_dump_total_files
                    && self.in_progress_batches.len() == 0 {
                    self.completed_dumps.push(dump_id.to_owned());
                    self.current_dump = None;
                    self.current_dump_total_files = 0;
                    assert(self@.completed =~= start.completed.push(dump_id@));
                }
                true
            },
            None => false,
        }
    }
}

} // verus!
