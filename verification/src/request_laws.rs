//! What each request does to the tasks, in terms of what the tasks held before.
use vstd::prelude::*;

use crate::batch_id;
use crate::table;
use crate::task_laws;
use crate::tasks;
use crate::tasks::{
    BatchInfo, BatchView, Choice, GetTaskResponse, ReplyView, TaskState, TasksView,
};
use crate::text;

verus! {

/// A batch that was heard of more than two hours ago has no worker after the check; any other has
/// the worker that it had. Nothing else changes, for any batch and at any time.
pub proof fn law_silence_releases_a_batch(ts: TasksView, now: int, i: int)
    requires
        0 <= i < ts.batches.len(),
    ensures
        ({
            let before = ts.batches[i].1;
            let after = ts.checked(now).batches[i].1;
            &&& now - before.last_ping > 7200 ==> after.colab_id is None
            &&& now - before.last_ping <= 7200 ==> after.colab_id == before.colab_id
            &&& ts.checked(now).batches[i].0 == ts.batches[i].0
            &&& after.dump_id == before.dump_id
            &&& after.start_index == before.start_index
            &&& after.end_index == before.end_index
            &&& after.start_time == before.start_time
            &&& after.last_ping == before.last_ping
            &&& after.resume_path_index == before.resume_path_index
        }),
        ts.checked(now).batches.len() == ts.batches.len(),
        ts.checked(now).pending == ts.pending,
        ts.checked(now).current == ts.current,
        ts.checked(now).total == ts.total,
        ts.checked(now).next == ts.next,
        ts.checked(now).completed == ts.completed,
{
}

/// The later the check, the more is released: what one check takes from its worker, every later
/// check takes too, and checking twice is checking once.
pub proof fn law_released_stays_released(ts: TasksView, sooner: int, later: int, i: int)
    requires
        0 <= i < ts.batches.len(),
        sooner <= later,
        ts.batches[i].1.colab_id is Some,
        ts.checked(sooner).batches[i].1.colab_id is None,
    ensures
        ts.checked(later).batches[i].1.colab_id is None,
        ts.checked(sooner).checked(sooner) == ts.checked(sooner),
{
    assert(ts.checked(sooner).checked(sooner).batches =~= ts.checked(sooner).batches);
}

/// The check says that it released something where a batch was heard of more than two hours ago,
/// and it is well-timed where no batch was heard of later than now.
pub proof fn law_silence_is_noticed(ts: TasksView, now: int)
    ensures
        ts.any_timed_out(now) == (exists|i: int|
            0 <= i < ts.batches.len() && now - (#[trigger] ts.batches[i]).1.last_ping > 7200),
        ts.heard_by(now) == (forall|i: int|
            0 <= i < ts.batches.len() ==> (#[trigger] ts.batches[i]).1.last_ping <= now),
{
    if exists|i: int|
        0 <= i < ts.batches.len() && now - (#[trigger] ts.batches[i]).1.last_ping > 7200 {
        let i = choose|i: int|
            0 <= i < ts.batches.len() && now - (#[trigger] ts.batches[i]).1.last_ping > 7200;
        assert(ts.batches[i].1.timed_out(now));
    }
}

/// The worker holds batch `i`, and was heard of in the last two hours.
pub open spec fn holds(ts: TasksView, worker: Seq<char>, now: int, i: int) -> bool {
    ts.batches[i].1.colab_id == Some(worker) && now - ts.batches[i].1.last_ping <= 7200
}

/// Nobody holds batch `i`, or whoever does was not heard of in the last two hours.
pub open spec fn is_free(ts: TasksView, now: int, i: int) -> bool {
    ts.batches[i].1.colab_id is None || now - ts.batches[i].1.last_ping > 7200
}

/// The answer that gives batch `i` to a worker.
pub open spec fn gives(ts: TasksView, i: int) -> ReplyView {
    ReplyView {
        status: "success"@,
        dump_id: Some(ts.batches[i].1.dump_id),
        start_index: ts.batches[i].1.start_index,
        end_index: ts.batches[i].1.end_index,
        resume_index: ts.batches[i].1.resume_path_index,
        message: None,
    }
}

/// Apart from batch `i`, the state is the one that the check leaves.
pub open spec fn only_row_differs(ts: TasksView, after: TasksView, now: int, i: int) -> bool {
    &&& after.batches.len() == ts.batches.len()
    &&& forall|k: int|
        0 <= k < ts.batches.len() && k != i ==> #[trigger] after.batches[k] == ts.checked(
            now,
        ).batches[k]
    &&& after.pending == ts.pending
    &&& after.current == ts.current
    &&& after.total == ts.total
    &&& after.next == ts.next
    &&& after.completed == ts.completed
}

/// A worker that holds a batch is given that batch, from where it stands, whatever else there is
/// to do. It was heard of now; when it was given the batch does not change.
pub proof fn law_own_batch_comes_first(ts: TasksView, worker: Seq<char>, now: int, i: int)
    requires
        0 <= i < ts.batches.len(),
        holds(ts, worker, now, i),
        forall|k: int| 0 <= k < i ==> !holds(ts, worker, now, k),
    ensures
        ts.checked(now).reply(worker, now) == gives(ts, i),
        only_row_differs(ts, ts.checked(now).assigned(worker, now), now, i),
        ts.checked(now).assigned(worker, now).batches[i] == (
            ts.batches[i].0,
            BatchView {
                colab_id: Some(worker),
                dump_id: ts.batches[i].1.dump_id,
                start_index: ts.batches[i].1.start_index,
                end_index: ts.batches[i].1.end_index,
                start_time: ts.batches[i].1.start_time,
                last_ping: now,
                resume_path_index: ts.batches[i].1.resume_path_index,
            },
        ),
        !(ts.checked(now).choice(worker) is Nothing),
        ts.checked(now).has_room(worker),
{
    let c = ts.checked(now);
    assert forall|k: int| 0 <= k < i implies (#[trigger] c.batches[k]).1.colab_id != Some(
        worker,
    ) by {
        assert(!holds(ts, worker, now, k));
    }
    tasks::lemma_held_by_is(c.batches, Some(worker), i);
}

/// A worker that holds no batch is given the first that nobody holds, or whose worker fell silent
/// more than two hours ago, from where it stands, and no new files. The batch is the worker's from
/// now on.
pub proof fn law_free_batch_is_handed_on(ts: TasksView, worker: Seq<char>, now: int, i: int)
    requires
        0 <= i < ts.batches.len(),
        is_free(ts, now, i),
        forall|k: int| 0 <= k < i ==> !is_free(ts, now, k),
        forall|k: int| 0 <= k < ts.batches.len() ==> !holds(ts, worker, now, k),
    ensures
        ts.checked(now).reply(worker, now) == gives(ts, i),
        only_row_differs(ts, ts.checked(now).assigned(worker, now), now, i),
        ts.checked(now).assigned(worker, now).batches[i] == (
            ts.batches[i].0,
            BatchView {
                colab_id: Some(worker),
                dump_id: ts.batches[i].1.dump_id,
                start_index: ts.batches[i].1.start_index,
                end_index: ts.batches[i].1.end_index,
                start_time: now,
                last_ping: now,
                resume_path_index: ts.batches[i].1.resume_path_index,
            },
        ),
        !(ts.checked(now).choice(worker) is Nothing),
        ts.checked(now).has_room(worker),
{
    let c = ts.checked(now);
    lemma_holds_none(ts, worker, now);
    assert forall|k: int| 0 <= k < i implies (#[trigger] c.batches[k]).1.colab_id is Some by {
        assert(!is_free(ts, now, k));
    }
    tasks::lemma_held_by_is(c.batches, None, i);
}

/// However long ago a worker fell silent, once two hours have gone by its batch is handed on: a
/// worker that holds none is given a batch whose worker is silent or gone, and no new files.
pub proof fn law_silent_batch_is_handed_on(ts: TasksView, worker: Seq<char>, now: int, i: int)
    requires
        0 <= i < ts.batches.len(),
        now - ts.batches[i].1.last_ping > 7200,
        forall|k: int| 0 <= k < ts.batches.len() ==> !holds(ts, worker, now, k),
    ensures
        exists|k: int|
            {
                &&& 0 <= k <= i
                &&& #[trigger] is_free(ts, now, k)
                &&& ts.checked(now).reply(worker, now) == gives(ts, k)
                &&& ts.checked(now).assigned(worker, now).batches[k].1.colab_id == Some(worker)
            },
        ts.checked(now).assigned(worker, now).next == ts.next,
        ts.checked(now).assigned(worker, now).batches.len() == ts.batches.len(),
{
    assert(is_free(ts, now, i));
    let k = lemma_first_free(ts, now, i);
    law_free_batch_is_handed_on(ts, worker, now, k);
}

proof fn lemma_first_free(ts: TasksView, now: int, i: int) -> (k: int)
    requires
        0 <= i < ts.batches.len(),
        is_free(ts, now, i),
    ensures
        0 <= k <= i,
        is_free(ts, now, k),
        forall|j: int| 0 <= j < k ==> !is_free(ts, now, j),
    decreases i,
{
    if exists|j: int| 0 <= j < i && is_free(ts, now, j) {
        let j = choose|j: int| 0 <= j < i && is_free(ts, now, j);
        lemma_first_free(ts, now, j)
    } else {
        i
    }
}

proof fn lemma_holds_none(ts: TasksView, worker: Seq<char>, now: int)
    requires
        forall|k: int| 0 <= k < ts.batches.len() ==> !holds(ts, worker, now, k),
    ensures
        tasks::held_by(ts.checked(now).batches, Some(worker)) == ts.batches.len(),
{
    let c = ts.checked(now);
    assert forall|k: int| 0 <= k < c.batches.len() implies (#[trigger] c.batches[k]).1.colab_id
        != Some(worker) by {
        assert(!holds(ts, worker, now, k));
    }
    tasks::lemma_held_by_is(c.batches, Some(worker), c.batches.len() as int);
}

/// Where a worker holds no batch and none is free, it is given the next five files of the current
/// dump, or as many as there are left, from the first of them. They are its batch from now on,
/// and the files after them come next.
pub proof fn law_next_files_are_handed_out(ts: TasksView, worker: Seq<char>, now: int)
    requires
        forall|k: int| 0 <= k < ts.batches.len() ==> !holds(ts, worker, now, k),
        forall|k: int| 0 <= k < ts.batches.len() ==> !is_free(ts, now, k),
        ts.current is Some,
        ts.next < ts.total,
    ensures
        ({
            let end = if ts.next + 5 <= ts.total {
                ts.next + 5
            } else {
                ts.total
            };
            let after = ts.checked(now).assigned(worker, now);
            let name = batch_id::batch_name(ts.current->0, ts.next);
            let batch = BatchView {
                colab_id: Some(worker),
                dump_id: ts.current->0,
                start_index: ts.next,
                end_index: end,
                start_time: now,
                last_ping: now,
                resume_path_index: ts.next,
            };
            &&& ts.checked(now).reply(worker, now) == (ReplyView {
                status: "success"@,
                dump_id: ts.current,
                start_index: ts.next,
                end_index: end,
                resume_index: ts.next,
                message: None,
            })
            &&& after.next == end
            &&& after.batches == table::inserted(ts.batches, name, batch)
            &&& task_laws::consistent(ts) ==> after.batches == ts.batches.push((name, batch))
            &&& after.pending == ts.pending
            &&& after.current == ts.current
            &&& after.total == ts.total
            &&& after.completed == ts.completed
        }),
        !(ts.checked(now).choice(worker) is Nothing),
        ts.checked(now).has_room(worker) == (ts.next + 5 <= i32::MAX),
{
    let c = ts.checked(now);
    lemma_holds_none(ts, worker, now);
    lemma_none_free(ts, now);
    assert(c.batches =~= ts.batches) by {
        assert forall|k: int| 0 <= k < ts.batches.len() implies #[trigger] c.batches[k]
            == ts.batches[k] by {
            assert(!is_free(ts, now, k));
        }
    }
    if task_laws::consistent(ts) {
        task_laws::lemma_fresh_name(ts);
    }
}

proof fn lemma_none_free(ts: TasksView, now: int)
    requires
        forall|k: int| 0 <= k < ts.batches.len() ==> !is_free(ts, now, k),
    ensures
        tasks::held_by(ts.checked(now).batches, None) == ts.batches.len(),
{
    let c = ts.checked(now);
    assert forall|k: int| 0 <= k < c.batches.len() implies (#[trigger] c.batches[k]).1.colab_id
        is Some by {
        assert(!is_free(ts, now, k));
    }
    tasks::lemma_held_by_is(c.batches, None, c.batches.len() as int);
}

/// Where a worker holds no batch, none is free, and no file is left or no dump is worked on, the
/// worker is told that there is nothing to do, and nothing changes.
pub proof fn law_nothing_is_left(ts: TasksView, worker: Seq<char>, now: int)
    requires
        forall|k: int| 0 <= k < ts.batches.len() ==> !holds(ts, worker, now, k),
        forall|k: int| 0 <= k < ts.batches.len() ==> !is_free(ts, now, k),
        ts.current is None || ts.next >= ts.total,
    ensures
        ts.checked(now).reply(worker, now) == (ReplyView {
            status: "empty"@,
            dump_id: None,
            start_index: 0,
            end_index: 0,
            resume_index: 0,
            message: Some("No pending tasks"@),
        }),
        ts.checked(now).assigned(worker, now) == ts,
        ts.checked(now).choice(worker) is Nothing,
        ts.checked(now).has_room(worker),
{
    let c = ts.checked(now);
    lemma_holds_none(ts, worker, now);
    lemma_none_free(ts, now);
    assert forall|k: int| 0 <= k < ts.batches.len() implies #[trigger] c.batches[k]
        == ts.batches[k] by {
        assert(!is_free(ts, now, k));
    }
    assert(c.batches =~= ts.batches);
}

/// A batch is known where a row has its name, and in a consistent state exactly where a batch of
/// that dump starts at that file.
pub proof fn law_known_batches(ts: TasksView, dump: Seq<char>, start: int)
    ensures
        ts.knows(dump, start) == (exists|i: int|
            0 <= i < ts.batches.len() && (#[trigger] ts.batches[i]).0 == batch_id::batch_name(
                dump,
                start,
            )),
        task_laws::consistent(ts) ==> ts.knows(dump, start) == (exists|i: int|
            0 <= i < ts.batches.len() && (#[trigger] ts.batches[i]).1.dump_id == dump
                && ts.batches[i].1.start_index == start),
{
    let name = batch_id::batch_name(dump, start);
    table::lemma_place(ts.batches, name);
    if ts.knows(dump, start) {
        assert(ts.batches[ts.row(dump, start)].0 == name);
        if task_laws::consistent(ts) {
            task_laws::lemma_named_row(ts, dump, start);
        }
    }
    if task_laws::consistent(ts) && (exists|i: int|
        0 <= i < ts.batches.len() && (#[trigger] ts.batches[i]).1.dump_id == dump
            && ts.batches[i].1.start_index == start) {
        let i = choose|i: int|
            0 <= i < ts.batches.len() && (#[trigger] ts.batches[i]).1.dump_id == dump
                && ts.batches[i].1.start_index == start;
        assert(task_laws::well_placed(ts, ts.batches[i]));
    }
}

/// A chunk touches its own batch alone. The batch was heard of now. Where the chunk ends file
/// `path`, the work goes on with the file after it; where it ends none, it goes on where it did
/// before. Nothing else of the batch changes.
pub proof fn law_progress_touches_one_batch(
    ts: TasksView,
    dump: Seq<char>,
    start: int,
    path: int,
    now: int,
    i: int,
)
    requires
        table::distinct(ts.batches),
        0 <= i < ts.batches.len(),
    ensures
        ({
            let before = ts.batches[i].1;
            let after = ts.progressed(dump, start, path, now);
            &&& after.batches.len() == ts.batches.len()
            &&& ts.batches[i].0 != batch_id::batch_name(dump, start) ==> after.batches[i]
                == ts.batches[i]
            &&& ts.batches[i].0 == batch_id::batch_name(dump, start) ==> after.batches[i] == (
                ts.batches[i].0,
                BatchView {
                    colab_id: before.colab_id,
                    dump_id: before.dump_id,
                    start_index: before.start_index,
                    end_index: before.end_index,
                    start_time: before.start_time,
                    last_ping: now,
                    resume_path_index: if path == -1 {
                        before.resume_path_index
                    } else {
                        path + 1
                    },
                },
            )
            &&& after.pending == ts.pending
            &&& after.current == ts.current
            &&& after.total == ts.total
            &&& after.next == ts.next
            &&& after.completed == ts.completed
        }),
{
    lemma_row_of_name(ts, dump, start, i);
}

proof fn lemma_row_of_name(ts: TasksView, dump: Seq<char>, start: int, i: int)
    requires
        table::distinct(ts.batches),
        0 <= i < ts.batches.len(),
    ensures
        ts.batches[i].0 == batch_id::batch_name(dump, start) ==> ts.knows(dump, start) && ts.row(
            dump,
            start,
        ) == i,
        ts.knows(dump, start) ==> 0 <= ts.row(dump, start) < ts.batches.len() && ts.batches[ts.row(
            dump,
            start,
        )].0 == batch_id::batch_name(dump, start),
{
    let name = batch_id::batch_name(dump, start);
    table::lemma_place(ts.batches, name);
    if ts.batches[i].0 == name {
        let p = ts.row(dump, start);
        if p < i {
            assert(ts.batches[p].0 != ts.batches[i].0);
        }
    }
}

/// A chunk of a batch that nobody knows changes nothing.
pub proof fn law_unknown_progress_changes_nothing(
    ts: TasksView,
    dump: Seq<char>,
    start: int,
    path: int,
    now: int,
)
    requires
        forall|i: int|
            0 <= i < ts.batches.len() ==> (#[trigger] ts.batches[i]).0 != batch_id::batch_name(
                dump,
                start,
            ),
    ensures
        ts.progressed(dump, start, path, now) == ts,
{
    table::lemma_place(ts.batches, batch_id::batch_name(dump, start));
}

/// A batch that is completed leaves the table, and no other does. The dump is done with it where
/// it is the current one, all its files were handed out and no batch is left; then no dump is
/// current. A batch that nobody knows changes nothing.
pub proof fn law_completion(ts: TasksView, dump: Seq<char>, start: int, i: int)
    requires
        table::distinct(ts.batches),
        0 <= i < ts.batches.len(),
    ensures
        ({
            let after = ts.completed(dump, start);
            let done = ts.current == Some(dump) && ts.next >= ts.total && ts.batches.len() == 1;
            &&& after.pending == ts.pending
            &&& after.next == ts.next
            &&& ts.batches[i].0 == batch_id::batch_name(dump, start) ==> {
                &&& after.batches == ts.batches.remove(i)
                &&& after.completed == if done {
                    ts.completed.push(dump)
                } else {
                    ts.completed
                }
                &&& after.current == if done {
                    None
                } else {
                    ts.current
                }
                &&& after.total == if done {
                    0
                } else {
                    ts.total
                }
            }
        }),
        (forall|k: int|
            0 <= k < ts.batches.len() ==> (#[trigger] ts.batches[k]).0 != batch_id::batch_name(
                dump,
                start,
            )) ==> ts.completed(dump, start) == ts,
{
    lemma_row_of_name(ts, dump, start, i);
}

/// Where no dump is worked on, the first that waits is started, from its first file and with no
/// batch; the others keep waiting. Where one is worked on, or none waits, nothing changes.
pub proof fn law_next_dump_starts(ts: TasksView, count: int)
    ensures
        ts.wants_dump() == (ts.current is None && ts.pending.len() > 0),
        ts.current is None && ts.pending.len() > 0 ==> ts.initialized(count) == (TasksView {
            pending: ts.pending.subrange(1, ts.pending.len() as int),
            current: Some(ts.pending[0]),
            total: count,
            next: 0,
            batches: Seq::empty(),
            completed: ts.completed,
        }),
        ts.current is Some || ts.pending.len() == 0 ==> ts.initialized(count) == ts,
{
}

/// Starting a dump sets it as the current one with its number of files, from its first file and
/// with no batch.
pub proof fn law_installing_a_dump(ts: TasksView, dump: Seq<char>, count: int)
    ensures
        ts.installed(dump, count) == (TasksView {
            pending: ts.pending,
            current: Some(dump),
            total: count,
            next: 0,
            batches: Seq::empty(),
            completed: ts.completed,
        }),
{
}

/// What happens to the tasks.
pub enum Request {
    /// A worker asks for a task, at a time.
    Ask(Seq<char>, int),
    /// A chunk comes in: of a dump, of the batch that starts at a file, ending a file or -1, at a
    /// time.
    Send(Seq<char>, int, int, int),
    /// A batch is completed: of a dump, and the file that it starts at.
    Complete(Seq<char>, int),
    /// The next dump is started where one is to be, with its number of files.
    Start(int),
}

/// The tasks after a request.
pub open spec fn after(ts: TasksView, request: Request) -> TasksView {
    match request {
        Request::Ask(worker, now) => ts.checked(now).assigned(worker, now),
        Request::Send(dump, start, path, now) => ts.progressed(dump, start, path, now),
        Request::Complete(dump, start) => ts.completed(dump, start),
        Request::Start(count) => ts.initialized(count),
    }
}

/// The tasks after requests that come one after the other.
pub open spec fn after_all(ts: TasksView, requests: Seq<Request>) -> TasksView
    decreases requests.len(),
{
    if requests.len() == 0 {
        ts
    } else {
        after(after_all(ts, requests.drop_last()), requests.last())
    }
}

/// The request neither ends a file of the batch nor completes the batch.
pub open spec fn leaves_place(request: Request, dump: Seq<char>, start: int) -> bool {
    match request {
        Request::Send(d, s, path, _) => d != dump || s != start || path == -1,
        Request::Complete(d, s) => d != dump || s != start,
        _ => true,
    }
}

/// The batch is there, with its files, and the work on it goes on at file `resume`.
pub open spec fn stands_at(
    ts: TasksView,
    dump: Seq<char>,
    start: int,
    end: int,
    resume: int,
) -> bool {
    exists|i: int|
        {
            &&& 0 <= i < ts.batches.len()
            &&& (#[trigger] ts.batches[i]).1.dump_id == dump
            &&& ts.batches[i].1.start_index == start
            &&& ts.batches[i].1.end_index == end
            &&& ts.batches[i].1.resume_path_index == resume
        }
}

proof fn lemma_request_keeps(ts: TasksView, request: Request)
    requires
        task_laws::consistent(ts),
    ensures
        task_laws::consistent(after(ts, request)),
{
    match request {
        Request::Ask(worker, now) => {
            task_laws::law_timeouts_lose_no_batch(ts, now);
            task_laws::law_assignment_keeps_files_apart(ts.checked(now), worker, now);
        },
        Request::Send(dump, start, path, now) => {
            task_laws::law_progress_keeps_files_apart(ts, dump, start, path, now);
        },
        Request::Complete(dump, start) => {
            task_laws::law_completion_keeps_files_apart(ts, dump, start);
        },
        Request::Start(count) => {
            task_laws::law_new_dump_is_consistent(ts, count);
        },
    }
}

/// No request but a chunk that ends a file of a batch moves the place at which the work on that
/// batch goes on, and only completing it takes it away.
pub proof fn law_only_a_finished_file_moves_the_place(
    ts: TasksView,
    request: Request,
    dump: Seq<char>,
    start: int,
    end: int,
    resume: int,
)
    requires
        task_laws::consistent(ts),
        stands_at(ts, dump, start, end, resume),
        leaves_place(request, dump, start),
    ensures
        task_laws::consistent(after(ts, request)),
        stands_at(after(ts, request), dump, start, end, resume),
{
    lemma_request_keeps(ts, request);
    let i = choose|i: int|
        {
            &&& 0 <= i < ts.batches.len()
            &&& (#[trigger] ts.batches[i]).1.dump_id == dump
            &&& ts.batches[i].1.start_index == start
            &&& ts.batches[i].1.end_index == end
            &&& ts.batches[i].1.resume_path_index == resume
        };
    let then = after(ts, request);
    assert(task_laws::well_placed(ts, ts.batches[i]));
    match request {
        Request::Ask(worker, now) => {
            let c = ts.checked(now);
            task_laws::law_timeouts_lose_no_batch(ts, now);
            law_silence_releases_a_batch(ts, now, i);
            task_laws::law_assignment_keeps_files_apart(c, worker, now);
            tasks::lemma_held_by(c.batches, Some(worker));
            tasks::lemma_held_by(c.batches, None);
            if c.choice(worker) is Fresh {
                task_laws::lemma_fresh_name(c);
            }
            assert(then.batches[i].1.resume_path_index == resume);
        },
        Request::Send(d, s, path, now) => {
            law_progress_touches_one_batch(ts, d, s, path, now, i);
            if ts.batches[i].0 == batch_id::batch_name(d, s) {
                batch_id::law_batch_name_injective(dump, start, d, s);
            }
            assert(then.batches[i].1.resume_path_index == resume);
        },
        Request::Complete(d, s) => {
            if ts.batches[i].0 == batch_id::batch_name(d, s) {
                batch_id::law_batch_name_injective(dump, start, d, s);
            }
            table::lemma_place(ts.batches, batch_id::batch_name(d, s));
            if ts.knows(d, s) {
                let k = ts.row(d, s);
                let j = if i < k {
                    i
                } else {
                    i - 1
                };
                assert(k != i);
                assert(then.batches[j] == ts.batches[i]);
            } else {
                assert(then.batches[i] == ts.batches[i]);
            }
        },
        Request::Start(_) => {
            assert(then.batches[i] == ts.batches[i]);
        },
    }
}

/// After a chunk ended file `path` of a batch, whatever requests come in that end no other file of
/// it and do not complete it, chunks in the middle of a file among them: the work on it goes on at
/// file `path + 1`.
pub proof fn law_the_place_is_kept(
    ts: TasksView,
    dump: Seq<char>,
    start: int,
    end: int,
    resume: int,
    path: int,
    then: int,
    requests: Seq<Request>,
)
    requires
        task_laws::consistent(ts),
        stands_at(ts, dump, start, end, resume),
        forall|k: int| 0 <= k < requests.len() ==> leaves_place(#[trigger] requests[k], dump, start),
    ensures
        ({
            let sent = ts.progressed(dump, start, path, then);
            let at = if path == -1 {
                resume
            } else {
                path + 1
            };
            &&& task_laws::consistent(after_all(sent, requests))
            &&& stands_at(after_all(sent, requests), dump, start, end, at)
        }),
    decreases requests.len(),
{
    let sent = ts.progressed(dump, start, path, then);
    let at = if path == -1 {
        resume
    } else {
        path + 1
    };
    if requests.len() == 0 {
        let i = choose|i: int|
            {
                &&& 0 <= i < ts.batches.len()
                &&& (#[trigger] ts.batches[i]).1.dump_id == dump
                &&& ts.batches[i].1.start_index == start
                &&& ts.batches[i].1.end_index == end
                &&& ts.batches[i].1.resume_path_index == resume
            };
        assert(task_laws::well_placed(ts, ts.batches[i]));
        task_laws::law_progress_keeps_files_apart(ts, dump, start, path, then);
        law_progress_touches_one_batch(ts, dump, start, path, then, i);
        assert(sent.batches[i].1.resume_path_index == at);
    } else {
        let before = requests.drop_last();
        assert forall|k: int| 0 <= k < before.len() implies leaves_place(
            #[trigger] before[k],
            dump,
            start,
        ) by {
            assert(before[k] == requests[k]);
        }
        law_the_place_is_kept(ts, dump, start, end, resume, path, then, before);
        assert(leaves_place(requests[requests.len() - 1], dump, start));
        law_only_a_finished_file_moves_the_place(
            after_all(sent, before),
            requests.last(),
            dump,
            start,
            end,
            at,
        );
    }
}

/// Whoever is given a batch is told where the work on it stands.
pub proof fn law_the_place_is_told(
    ts: TasksView,
    dump: Seq<char>,
    start: int,
    end: int,
    resume: int,
    worker: Seq<char>,
    now: int,
)
    requires
        task_laws::consistent(ts),
        stands_at(ts, dump, start, end, resume),
        ts.checked(now).reply(worker, now).status == "success"@,
        ts.checked(now).reply(worker, now).start_index == start,
    ensures
        ts.checked(now).reply(worker, now) == (ReplyView {
            status: "success"@,
            dump_id: Some(dump),
            start_index: start,
            end_index: end,
            resume_index: resume,
            message: None,
        }),
{
    let c = ts.checked(now);
    let i = choose|i: int|
        {
            &&& 0 <= i < ts.batches.len()
            &&& (#[trigger] ts.batches[i]).1.dump_id == dump
            &&& ts.batches[i].1.start_index == start
            &&& ts.batches[i].1.end_index == end
            &&& ts.batches[i].1.resume_path_index == resume
        };
    assert(task_laws::well_placed(ts, ts.batches[i]));
    tasks::lemma_held_by(c.batches, Some(worker));
    tasks::lemma_held_by(c.batches, None);
    match c.choice(worker) {
        Choice::Held(k) | Choice::Unheld(k) => {
            assert(task_laws::well_placed(ts, ts.batches[k]));
            if k < i {
                assert(task_laws::apart(ts.batches[k].1, ts.batches[i].1));
            }
            if i < k {
                assert(task_laws::apart(ts.batches[i].1, ts.batches[k].1));
            }
        },
        Choice::Fresh => {},
        Choice::Nothing => {
            reveal_strlit("success");
            reveal_strlit("empty");
            assert("success"@.len() == 7);
            assert("empty"@.len() == 5);
        },
    }
}

/// The state, its batches and the answers are seen with all that they hold.
pub proof fn law_tasks_are_seen_whole(
    ts: TaskState,
    batch: BatchInfo,
    response: GetTaskResponse,
    rows: Seq<(Seq<char>, BatchInfo)>,
)
    ensures
        ts@ == (TasksView {
            pending: text::texts(ts.pending_dumps@),
            current: text::opt_text(ts.current_dump),
            total: ts.current_dump_total_files as int,
            next: ts.next_path_index as int,
            batches: tasks::batch_views(ts.in_progress_batches@),
            completed: text::texts(ts.completed_dumps@),
        }),
        tasks::batch_views(rows).len() == rows.len(),
        forall|i: int|
            0 <= i < rows.len() ==> #[trigger] tasks::batch_views(rows)[i] == (
                rows[i].0,
                rows[i].1@,
            ),
        batch@ == (BatchView {
            colab_id: text::opt_text(batch.colab_id),
            dump_id: batch.dump_id@,
            start_index: batch.start_index as int,
            end_index: batch.end_index as int,
            start_time: batch.start_time as int,
            last_ping: batch.last_ping as int,
            resume_path_index: batch.resume_path_index as int,
        }),
        response@ == (ReplyView {
            status: response.status@,
            dump_id: text::opt_text(response.dump_id),
            start_index: response.start_index as int,
            end_index: response.end_index as int,
            resume_index: response.resume_index as int,
            message: text::opt_text(response.message),
        }),
{
}

/// In a consistent state every batch is of the current dump, of one to five files, all of them
/// handed out, under the name of its dump and first file; and no file is in two batches.
pub proof fn law_no_file_is_in_two_batches(ts: TasksView, i: int, j: int, file: int)
    requires
        task_laws::consistent(ts),
        0 <= i < ts.batches.len(),
        0 <= j < ts.batches.len(),
    ensures
        ts.current == Some(ts.batches[i].1.dump_id),
        ts.batches[i].0 == batch_id::batch_name(
            ts.batches[i].1.dump_id,
            ts.batches[i].1.start_index,
        ),
        0 <= ts.batches[i].1.start_index,
        1 <= ts.batches[i].1.end_index - ts.batches[i].1.start_index <= 5,
        ts.batches[i].1.end_index <= ts.next,
        ts.next <= ts.total,
        ts.batches[i].1.start_index <= file < ts.batches[i].1.end_index
            && ts.batches[j].1.start_index <= file < ts.batches[j].1.end_index ==> i == j,
        ts.batches[i].0 == ts.batches[j].0 ==> i == j,
{
    assert(task_laws::well_placed(ts, ts.batches[i]));
    assert(task_laws::well_placed(ts, ts.batches[j]));
    if i < j {
        assert(task_laws::apart(ts.batches[i].1, ts.batches[j].1));
        assert(ts.batches[i].0 != ts.batches[j].0);
    }
    if j < i {
        assert(task_laws::apart(ts.batches[j].1, ts.batches[i].1));
        assert(ts.batches[j].0 != ts.batches[i].0);
    }
}

/// No worker holds two batches where each holds at most one.
pub proof fn law_no_worker_holds_two(ts: TasksView, worker: Seq<char>, i: int, j: int)
    requires
        task_laws::one_batch_each(ts),
        0 <= i < ts.batches.len(),
        0 <= j < ts.batches.len(),
        ts.batches[i].1.colab_id == Some(worker),
        ts.batches[j].1.colab_id == Some(worker),
    ensures
        i == j,
{
    if i < j {
        assert(ts.batches[i].1.colab_id != ts.batches[j].1.colab_id);
    }
    if j < i {
        assert(ts.batches[j].1.colab_id != ts.batches[i].1.colab_id);
    }
}

} // verus!
