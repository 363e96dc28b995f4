//! What holds of the handing out of batches, whatever the workers do.
use vstd::multiset::Multiset;
use vstd::prelude::*;

use crate::batch_id;
use crate::table;
use crate::tasks;
use crate::tasks::{BatchView, Choice, ReplyView, TasksView, BATCH_SIZE, TASK_TIMEOUT_SECONDS};

verus! {

/// Every batch is a run of files of the current dump that were handed out, under the name of its
/// first file; no file is in two batches.
pub open spec fn consistent(ts: TasksView) -> bool {
    &&& table::distinct(ts.batches)
    &&& ts.current is None ==> ts.batches.len() == 0
    &&& ts.current is Some ==> 0 <= ts.next && (ts.next <= ts.total || ts.next == 0)
    &&& forall|i: int| 0 <= i < ts.batches.len() ==> well_placed(ts, #[trigger] ts.batches[i])
    &&& forall|i: int, j: int|
        0 <= i < j < ts.batches.len() ==> apart(
            (#[trigger] ts.batches[i]).1,
            (#[trigger] ts.batches[j]).1,
        )
}

/// The batch is a run of at most five files of the current dump, all of them handed out.
pub open spec fn well_placed(ts: TasksView, row: (Seq<char>, BatchView)) -> bool {
    &&& ts.current == Some(row.1.dump_id)
    &&& row.0 == batch_id::batch_name(row.1.dump_id, row.1.start_index)
    &&& 0 <= row.1.start_index < row.1.end_index <= ts.next
    &&& row.1.end_index - row.1.start_index <= BATCH_SIZE
}

/// The batches have no file in common.
pub open spec fn apart(a: BatchView, b: BatchView) -> bool {
    a.end_index <= b.start_index || b.end_index <= a.start_index
}

/// No worker holds two batches.
pub open spec fn one_batch_each(ts: TasksView) -> bool {
    forall|i: int, j: int|
        0 <= i < j < ts.batches.len() && (#[trigger] ts.batches[i]).1.colab_id is Some
            ==> ts.batches[i].1.colab_id != (#[trigger] ts.batches[j]).1.colab_id
}

/// The batches of `before` are there still, in their places and with the same files.
pub open spec fn keeps_batches(before: TasksView, after: TasksView) -> bool {
    &&& before.batches.len() <= after.batches.len()
    &&& forall|i: int|
        0 <= i < before.batches.len() ==> {
            &&& (#[trigger] after.batches[i]).0 == before.batches[i].0
            &&& after.batches[i].1.dump_id == before.batches[i].1.dump_id
            &&& after.batches[i].1.start_index == before.batches[i].1.start_index
            &&& after.batches[i].1.end_index == before.batches[i].1.end_index
        }
}

proof fn lemma_choice(ts: TasksView, worker: Seq<char>)
    ensures
        match ts.choice(worker) {
            Choice::Held(i) => {
                &&& 0 <= i < ts.batches.len()
                &&& ts.batches[i].1.colab_id == Some(worker)
                &&& forall|k: int| 0 <= k < i ==> (#[trigger] ts.batches[k]).1.colab_id != Some(worker)
            },
            Choice::Unheld(i) => {
                &&& 0 <= i < ts.batches.len()
                &&& ts.batches[i].1.colab_id is None
                &&& forall|k: int|
                    0 <= k < ts.batches.len() ==> (#[trigger] ts.batches[k]).1.colab_id != Some(
                        worker,
                    )
            },
            Choice::Fresh => {
                &&& ts.current is Some
                &&& ts.next < ts.total
                &&& forall|k: int|
                    0 <= k < ts.batches.len() ==> (#[trigger] ts.batches[k]).1.colab_id is Some
                        && ts.batches[k].1.colab_id != Some(worker)
            },
            Choice::Nothing => {
                &&& ts.current is None || ts.next >= ts.total
                &&& forall|k: int|
                    0 <= k < ts.batches.len() ==> (#[trigger] ts.batches[k]).1.colab_id is Some
                        && ts.batches[k].1.colab_id != Some(worker)
            },
        },
{
    tasks::lemma_held_by(ts.batches, Some(worker));
    tasks::lemma_held_by(ts.batches, None);
}

/// In a consistent state the name of the next batch is new, so it is added behind the others.
pub proof fn lemma_fresh_name(ts: TasksView)
    requires
        consistent(ts),
        ts.current is Some,
    ensures
        !table::has_name(ts.batches, batch_id::batch_name(ts.current->0, ts.next)),
{
    let name = batch_id::batch_name(ts.current->0, ts.next);
    table::lemma_place(ts.batches, name);
    if table::has_name(ts.batches, name) {
        let p = table::place(ts.batches, name) as int;
        let row = ts.batches[p];
        assert(well_placed(ts, row));
        batch_id::law_batch_name_injective(
            row.1.dump_id,
            row.1.start_index,
            ts.current->0,
            ts.next,
        );
    }
}

/// A state that keeps the batches of a consistent one and adds none is consistent too.
proof fn lemma_kept_batches(before: TasksView, after: TasksView)
    requires
        consistent(before),
        keeps_batches(before, after),
        after.batches.len() == before.batches.len(),
        after.current == before.current,
        after.total == before.total,
        after.next == before.next,
    ensures
        consistent(after),
{
    assert forall|i: int| 0 <= i < after.batches.len() implies well_placed(
        after,
        #[trigger] after.batches[i],
    ) by {
        assert(well_placed(before, before.batches[i]));
    }
    assert forall|i: int, j: int| 0 <= i < j < after.batches.len() implies apart(
        (#[trigger] after.batches[i]).1,
        (#[trigger] after.batches[j]).1,
    ) && after.batches[i].0 != after.batches[j].0 by {
        assert(apart(before.batches[i].1, before.batches[j].1));
        assert(before.batches[i].0 != before.batches[j].0);
    }
}

/// Taking batches from silent workers keeps the state consistent, and every batch.
pub proof fn law_timeouts_lose_no_batch(ts: TasksView, now: int)
    requires
        consistent(ts),
    ensures
        consistent(ts.checked(now)),
        keeps_batches(ts, ts.checked(now)),
{
    lemma_kept_batches(ts, ts.checked(now));
}

/// Answering a request keeps the state consistent, and every batch: no file is handed out in two
/// batches.
pub proof fn law_assignment_keeps_files_apart(ts: TasksView, worker: Seq<char>, now: int)
    requires
        consistent(ts),
    ensures
        consistent(ts.assigned(worker, now)),
        keeps_batches(ts, ts.assigned(worker, now)),
{
    lemma_choice(ts, worker);
    let after = ts.assigned(worker, now);
    match ts.choice(worker) {
        Choice::Held(_) | Choice::Unheld(_) => {
            lemma_kept_batches(ts, after);
        },
        Choice::Fresh => {
            lemma_fresh_name(ts);
            let n = ts.batches.len() as int;
            let name = batch_id::batch_name(ts.current->0, ts.next);
            table::lemma_place(ts.batches, name);
            assert(after.batches == ts.batches.push((name, ts.fresh_batch(worker, now))));
            assert forall|i: int| 0 <= i < after.batches.len() implies well_placed(
                after,
                #[trigger] after.batches[i],
            ) by {
                if i < n {
                    assert(well_placed(ts, ts.batches[i]));
                }
            }
            assert forall|i: int, j: int| 0 <= i < j < after.batches.len() implies apart(
                (#[trigger] after.batches[i]).1,
                (#[trigger] after.batches[j]).1,
            ) && after.batches[i].0 != after.batches[j].0 by {
                assert(well_placed(ts, ts.batches[i]));
                if j < n {
                    assert(apart(ts.batches[i].1, ts.batches[j].1));
                    assert(ts.batches[i].0 != ts.batches[j].0);
                }
            }
        },
        Choice::Nothing => {},
    }
}

/// Noting progress keeps the state consistent, and every batch.
pub proof fn law_progress_keeps_files_apart(
    ts: TasksView,
    dump: Seq<char>,
    start: int,
    path: int,
    now: int,
)
    requires
        consistent(ts),
    ensures
        consistent(ts.progressed(dump, start, path, now)),
        keeps_batches(ts, ts.progressed(dump, start, path, now)),
{
    table::lemma_place(ts.batches, batch_id::batch_name(dump, start));
    lemma_kept_batches(ts, ts.progressed(dump, start, path, now));
}

proof fn lemma_removed_row(rows: Seq<(Seq<char>, BatchView)>, k: int, i: int)
    requires
        0 <= k < rows.len(),
        0 <= i < rows.len() - 1,
    ensures
        rows.remove(k)[i] == rows[if i < k {
            i
        } else {
            i + 1
        }],
{
}

/// Completing a batch keeps the state consistent, and takes out that batch alone.
pub proof fn law_completion_keeps_files_apart(ts: TasksView, dump: Seq<char>, start: int)
    requires
        consistent(ts),
    ensures
        consistent(ts.completed(dump, start)),
        !ts.completed(dump, start).knows(dump, start),
        ts.knows(dump, start) ==> ts.completed(dump, start).batches == ts.batches.remove(
            ts.row(dump, start),
        ),
{
    let after = ts.completed(dump, start);
    let name = batch_id::batch_name(dump, start);
    table::lemma_place(ts.batches, name);
    table::lemma_place(after.batches, name);
    if ts.knows(dump, start) {
        let k = ts.row(dump, start);
        let left = ts.batches.remove(k);
        table::lemma_removed_distinct(ts.batches, k);
        assert forall|i: int| 0 <= i < left.len() implies well_placed(ts, #[trigger] left[i])
            && left[i].0 != name by {
            lemma_removed_row(ts.batches, k, i);
            let a = if i < k {
                i
            } else {
                i + 1
            };
            assert(left[i] == ts.batches[a]);
            assert(well_placed(ts, ts.batches[a]));
            if a < k {
                assert(ts.batches[a].0 != ts.batches[k].0);
            } else {
                assert(ts.batches[k].0 != ts.batches[a].0);
            }
        }
        assert forall|i: int, j: int| 0 <= i < j < left.len() implies apart(
            (#[trigger] left[i]).1,
            (#[trigger] left[j]).1,
        ) by {
            lemma_removed_row(ts.batches, k, i);
            lemma_removed_row(ts.batches, k, j);
            let a = if i < k {
                i
            } else {
                i + 1
            };
            let b = if j < k {
                j
            } else {
                j + 1
            };
            assert(apart(ts.batches[a].1, ts.batches[b].1));
        }
        assert(after.batches =~= left);
        assert forall|i: int| 0 <= i < after.batches.len() implies well_placed(
            after,
            #[trigger] after.batches[i],
        ) by {
            assert(well_placed(ts, left[i]));
        }
    }
}

/// Starting a dump makes the state consistent.
pub proof fn law_new_dump_is_consistent(ts: TasksView, count: int)
    requires
        consistent(ts),
    ensures
        consistent(ts.initialized(count)),
{
}

/// The files of a new batch are those that come next: none of them was handed out before, and
/// the next new batch starts where this one ends.
pub proof fn law_fresh_files_are_new(ts: TasksView, worker: Seq<char>, now: int)
    requires
        consistent(ts),
        ts.choice(worker) is Fresh,
    ensures
        ts.given(worker, now)->0.start_index == ts.next,
        ts.next < ts.given(worker, now)->0.end_index <= ts.total,
        ts.given(worker, now)->0.end_index - ts.next <= BATCH_SIZE,
        ts.given(worker, now)->0.end_index - ts.next < BATCH_SIZE ==> ts.given(
            worker,
            now,
        )->0.end_index == ts.total,
        ts.assigned(worker, now).next == ts.given(worker, now)->0.end_index,
        forall|i: int|
            0 <= i < ts.batches.len() ==> (#[trigger] ts.batches[i]).1.end_index <= ts.next,
{
    assert forall|i: int| 0 <= i < ts.batches.len() implies (
    #[trigger] ts.batches[i]).1.end_index <= ts.next by {
        assert(well_placed(ts, ts.batches[i]));
    }
}

/// While a dump is worked on, the files that were handed out stay handed out: a new batch never
/// starts before the end of an earlier one, completed or not.
pub proof fn law_handed_out_files_stay_so(
    ts: TasksView,
    worker: Seq<char>,
    dump: Seq<char>,
    start: int,
    path: int,
    now: int,
)
    requires
        consistent(ts),
    ensures
        ts.checked(now).next == ts.next,
        ts.assigned(worker, now).next >= ts.next,
        ts.progressed(dump, start, path, now).next == ts.next,
        ts.completed(dump, start).next == ts.next,
        ts.choice(worker) is Fresh ==> ts.given(worker, now)->0.start_index >= ts.next,
{
}

/// Requests, timeouts and progress never let a worker hold two batches.
pub proof fn law_one_batch_each(
    ts: TasksView,
    worker: Seq<char>,
    dump: Seq<char>,
    start: int,
    path: int,
    count: int,
    now: int,
)
    requires
        one_batch_each(ts),
    ensures
        one_batch_each(ts.checked(now)),
        one_batch_each(ts.assigned(worker, now)),
        one_batch_each(ts.progressed(dump, start, path, now)),
        one_batch_each(ts.completed(dump, start)),
        one_batch_each(ts.initialized(count)),
{
    lemma_choice(ts, worker);
    let a = ts.checked(now);
    assert forall|i: int, j: int|
        0 <= i < j < a.batches.len() && (#[trigger] a.batches[i]).1.colab_id is Some implies
        a.batches[i].1.colab_id != (#[trigger] a.batches[j]).1.colab_id by {
        assert(ts.batches[i].1.colab_id != ts.batches[j].1.colab_id);
    }
    let b = ts.assigned(worker, now);
    let name = batch_id::batch_name(ts.current->0, ts.next);
    table::lemma_place(ts.batches, name);
    assert forall|i: int, j: int|
        0 <= i < j < b.batches.len() && (#[trigger] b.batches[i]).1.colab_id is Some implies
        b.batches[i].1.colab_id != (#[trigger] b.batches[j]).1.colab_id by {
        if j < ts.batches.len() {
            assert(ts.batches[i].1.colab_id is Some ==> ts.batches[i].1.colab_id
                != ts.batches[j].1.colab_id);
        }
    }
    let p = ts.progressed(dump, start, path, now);
    assert forall|i: int, j: int|
        0 <= i < j < p.batches.len() && (#[trigger] p.batches[i]).1.colab_id is Some implies
        p.batches[i].1.colab_id != (#[trigger] p.batches[j]).1.colab_id by {
        assert(ts.batches[i].1.colab_id != ts.batches[j].1.colab_id);
    }
    let c = ts.completed(dump, start);
    table::lemma_place(ts.batches, batch_id::batch_name(dump, start));
    if ts.knows(dump, start) {
        let k = ts.row(dump, start);
        assert forall|i: int, j: int|
            0 <= i < j < c.batches.len() && (#[trigger] c.batches[i]).1.colab_id is Some implies
            c.batches[i].1.colab_id != (#[trigger] c.batches[j]).1.colab_id by {
            lemma_removed_row(ts.batches, k, i);
            lemma_removed_row(ts.batches, k, j);
            let x = if i < k {
                i
            } else {
                i + 1
            };
            let y = if j < k {
                j
            } else {
                j + 1
            };
            assert(ts.batches[x].1.colab_id != ts.batches[y].1.colab_id);
        }
    }
}

/// A worker that asks again in time is given the same batch.
pub proof fn law_asking_again_gives_the_same(
    ts: TasksView,
    worker: Seq<char>,
    first: int,
    second: int,
)
    requires
        !(ts.choice(worker) is Nothing),
        second - first <= TASK_TIMEOUT_SECONDS,
    ensures
        ({
            let again = ts.assigned(worker, first).checked(second);
            &&& again.choice(worker) is Held
            &&& again.given(worker, second) == Some(
                BatchView { last_ping: second, ..ts.given(worker, first)->0 },
            )
            &&& again.reply(worker, second) == ts.reply(worker, first)
        }),
{
    lemma_choice(ts, worker);
    let after = ts.assigned(worker, first);
    let again = after.checked(second);
    let name = batch_id::batch_name(ts.current->0, ts.next);
    table::lemma_place(ts.batches, name);
    let p: int = match ts.choice(worker) {
        Choice::Held(i) => i,
        Choice::Unheld(i) => i,
        Choice::Fresh => table::place(ts.batches, name) as int,
        Choice::Nothing => 0,
    };
    assert(after.batches[p].1 == ts.given(worker, first)->0);
    assert(again.batches[p].1 == after.batches[p].1);
    assert forall|i: int| 0 <= i < p implies (#[trigger] again.batches[i]).1.colab_id != Some(
        worker,
    ) by {
        assert(after.batches[i] == ts.batches[i]);
    }
    tasks::lemma_held_by_is(again.batches, Some(worker), p);
}

/// While a batch awaits a worker, a worker that holds none is given such a batch, and no new
/// files.
pub proof fn law_released_batches_come_first(ts: TasksView, worker: Seq<char>, now: int, i: int)
    requires
        0 <= i < ts.batches.len(),
        ts.batches[i].1.colab_id is None,
        forall|k: int|
            0 <= k < ts.batches.len() ==> (#[trigger] ts.batches[k]).1.colab_id != Some(worker),
    ensures
        ts.choice(worker) is Unheld,
        ts.choice(worker)->Unheld_0 <= i,
        ts.assigned(worker, now).next == ts.next,
        ts.assigned(worker, now).batches.len() == ts.batches.len(),
{
    lemma_choice(ts, worker);
    tasks::lemma_held_by(ts.batches, None);
}

/// In a consistent state the row under the name of a batch holds that batch.
pub proof fn lemma_named_row(ts: TasksView, dump: Seq<char>, start: int)
    requires
        consistent(ts),
        ts.knows(dump, start),
    ensures
        0 <= ts.row(dump, start) < ts.batches.len(),
        ts.batches[ts.row(dump, start)].1.dump_id == dump,
        ts.batches[ts.row(dump, start)].1.start_index == start,
{
    let name = batch_id::batch_name(dump, start);
    table::lemma_place(ts.batches, name);
    let row = ts.batches[ts.row(dump, start)];
    assert(well_placed(ts, row));
    batch_id::law_batch_name_injective(row.1.dump_id, row.1.start_index, dump, start);
}

/// The answer that sends a worker back to a batch, to go on after file `path`.
pub open spec fn resumes(ts: TasksView, dump: Seq<char>, start: int, path: int) -> ReplyView {
    ReplyView {
        status: "success"@,
        dump_id: Some(dump),
        start_index: start,
        end_index: ts.batches[ts.row(dump, start)].1.end_index,
        resume_index: path + 1,
        message: None,
    }
}

/// A worker that asks in time after it sent in file `path` of its batch is given that batch, and
/// told to go on with the next file.
pub proof fn law_progress_is_resumed(
    ts: TasksView,
    dump: Seq<char>,
    start: int,
    path: int,
    then: int,
    worker: Seq<char>,
    now: int,
)
    requires
        consistent(ts),
        one_batch_each(ts),
        ts.knows(dump, start),
        ts.batches[ts.row(dump, start)].1.colab_id == Some(worker),
        path != -1,
        now - then <= TASK_TIMEOUT_SECONDS,
    ensures
        ts.progressed(dump, start, path, then).checked(now).reply(worker, now) == resumes(
            ts,
            dump,
            start,
            path,
        ),
{
    lemma_named_row(ts, dump, start);
    let row = ts.row(dump, start);
    let later = ts.progressed(dump, start, path, then).checked(now);
    assert forall|i: int| 0 <= i < row implies (#[trigger] later.batches[i]).1.colab_id != Some(
        worker,
    ) by {
        assert(ts.batches[i].1.colab_id is Some ==> ts.batches[i].1.colab_id
            != ts.batches[row].1.colab_id);
    }
    tasks::lemma_held_by_is(later.batches, Some(worker), row);
}

/// Whoever is given a batch after file `path` of it came in is told to go on with the next file,
/// however long the batch lay in between.
pub proof fn law_progress_outlasts_the_worker(
    ts: TasksView,
    dump: Seq<char>,
    start: int,
    path: int,
    then: int,
    worker: Seq<char>,
    now: int,
)
    requires
        consistent(ts),
        ts.knows(dump, start),
        path != -1,
        ({
            let given = ts.progressed(dump, start, path, then).checked(now).given(worker, now);
            given is Some && given->0.start_index == start
        }),
    ensures
        ts.progressed(dump, start, path, then).checked(now).reply(worker, now) == resumes(
            ts,
            dump,
            start,
            path,
        ),
{
    lemma_named_row(ts, dump, start);
    let row = ts.row(dump, start);
    let later = ts.progressed(dump, start, path, then).checked(now);
    lemma_choice(later, worker);
    assert(well_placed(ts, ts.batches[row]));
    match later.choice(worker) {
        Choice::Held(i) | Choice::Unheld(i) => {
            assert(later.batches[i].1.start_index == ts.batches[i].1.start_index);
            assert(well_placed(ts, ts.batches[i]));
            if i < row {
                assert(apart(ts.batches[i].1, ts.batches[row].1));
            }
            if row < i {
                assert(apart(ts.batches[row].1, ts.batches[i].1));
            }
        },
        _ => {},
    }
}

/// The state after the workers asked one after the other, each at its time.
pub open spec fn served(ts: TasksView, workers: Seq<Seq<char>>, times: Seq<int>) -> TasksView
    decreases workers.len(),
{
    if workers.len() == 0 {
        ts
    } else {
        let last = workers.len() - 1;
        served(ts, workers.drop_last(), times).checked(times[last]).assigned(
            workers[last],
            times[last],
        )
    }
}

/// The answer to each worker in turn: the next five files, fewer at the end of the dump, and
/// nothing when all were handed out.
pub open spec fn turn(dump: Seq<char>, total: int, i: int) -> ReplyView {
    let from = BATCH_SIZE * i;
    if from < total {
        ReplyView {
            status: "success"@,
            dump_id: Some(dump),
            start_index: from,
            end_index: if from + BATCH_SIZE < total {
                from + BATCH_SIZE
            } else {
                total
            },
            resume_index: from,
            message: None,
        }
    } else {
        tasks::nothing_to_do()
    }
}

/// Different workers ask, and none of them so late that another one's batch is released.
pub open spec fn prompt(workers: Seq<Seq<char>>, times: Seq<int>) -> bool {
    &&& workers.no_duplicates()
    &&& times.len() == workers.len()
    &&& forall|i: int, j: int|
        0 <= i <= j < times.len() ==> (#[trigger] times[j]) - (#[trigger] times[i])
            <= TASK_TIMEOUT_SECONDS
}

/// After some workers were served, each batch is held by one of them since it was served, and
/// the files up to its turn are handed out.
proof fn lemma_served(ts: TasksView, workers: Seq<Seq<char>>, times: Seq<int>, i: int)
    requires
        ts.current is Some,
        ts.next == 0,
        ts.batches.len() == 0,
        prompt(workers, times),
        0 <= i <= workers.len(),
    ensures
        ({
            let now = served(ts, workers.take(i), times);
            let files = BATCH_SIZE * i;
            &&& now.current == ts.current
            &&& now.total == ts.total
            &&& now.next == if files < ts.total {
                files
            } else if ts.total > 0 {
                ts.total
            } else {
                0
            }
            &&& forall|k: int|
                0 <= k < now.batches.len() ==> held_since(
                    (#[trigger] now.batches[k]).1,
                    workers,
                    times,
                    i,
                )
        }),
    decreases i,
{
    let now = served(ts, workers.take(i), times);
    if i > 0 {
        let j = i - 1;
        let before = served(ts, workers.take(j), times);
        assert(workers.take(i).drop_last() =~= workers.take(j));
        assert(workers.take(i)[j] == workers[j]);
        lemma_served(ts, workers, times, j);
        lemma_unserved(before, workers, times, j);
        let name = batch_id::batch_name(before.current->0, before.next);
        table::lemma_place(before.batches, name);
        assert(now == before.assigned(workers[j], times[j]));
        assert forall|k: int| 0 <= k < now.batches.len() implies held_since(
            (#[trigger] now.batches[k]).1,
            workers,
            times,
            i,
        ) by {
            if k < before.batches.len() && now.batches[k] == before.batches[k] {
                assert(held_since(before.batches[k].1, workers, times, j));
                let batch = before.batches[k].1;
                let m = choose|m: int| 0 <= m < j && served_at(batch, workers, times, m);
                assert(served_at(now.batches[k].1, workers, times, m));
            } else {
                assert(served_at(now.batches[k].1, workers, times, j));
            }
        }
    }
}

spec fn served_at(batch: BatchView, workers: Seq<Seq<char>>, times: Seq<int>, m: int) -> bool {
    batch.colab_id == Some(workers[m]) && batch.last_ping == times[m]
}

/// The batch is held by one of the first `i` workers, that was heard of when it was served.
spec fn held_since(batch: BatchView, workers: Seq<Seq<char>>, times: Seq<int>, i: int) -> bool {
    exists|m: int| 0 <= m < i && served_at(batch, workers, times, m)
}

/// A worker that was not served yet finds no batch to take over.
proof fn lemma_unserved(ts: TasksView, workers: Seq<Seq<char>>, times: Seq<int>, i: int)
    requires
        prompt(workers, times),
        0 <= i < workers.len(),
        forall|k: int|
            0 <= k < ts.batches.len() ==> held_since(
                (#[trigger] ts.batches[k]).1,
                workers,
                times,
                i,
            ),
    ensures
        ts.checked(times[i]) == ts,
        ts.choice(workers[i]) == if ts.current is Some && ts.next < ts.total {
            Choice::Fresh
        } else {
            Choice::Nothing
        },
{
    assert forall|k: int| 0 <= k < ts.batches.len() implies !(
    #[trigger] ts.batches[k]).1.timed_out(times[i]) && ts.batches[k].1.colab_id is Some
        && ts.batches[k].1.colab_id != Some(workers[i]) by {
        assert(held_since(ts.batches[k].1, workers, times, i));
        let m = choose|m: int| 0 <= m < i && served_at(ts.batches[k].1, workers, times, m);
        assert(times[i] - times[m] <= TASK_TIMEOUT_SECONDS);
        assert(workers[m] != workers[i]);
    }
    assert(ts.checked(times[i]).batches =~= ts.batches);
    tasks::lemma_held_by_is(ts.batches, None, ts.batches.len() as int);
    tasks::lemma_held_by_is(ts.batches, Some(workers[i]), ts.batches.len() as int);
}

/// Workers that ask one after the other, from the start of a dump, are given its files in turn:
/// five to each, from the first file to the last and none left out, and nothing to those that
/// come after.
pub proof fn law_files_are_handed_out_in_turn(
    ts: TasksView,
    workers: Seq<Seq<char>>,
    times: Seq<int>,
    i: int,
)
    requires
        ts.current is Some,
        ts.next == 0,
        ts.batches.len() == 0,
        prompt(workers, times),
        0 <= i < workers.len(),
    ensures
        served(ts, workers.take(i), times).checked(times[i]).reply(workers[i], times[i]) == turn(
            ts.current->0,
            ts.total,
            i,
        ),
        BATCH_SIZE * workers.len() >= ts.total && ts.total >= 0 ==> served(
            ts,
            workers,
            times,
        ).next == ts.total,
{
    lemma_served(ts, workers, times, i);
    lemma_unserved(served(ts, workers.take(i), times), workers, times, i);
    lemma_served(ts, workers, times, workers.len() as int);
    assert(workers.take(workers.len() as int) =~= workers);
}

/// The dumps that wait, are worked on or are done.
pub open spec fn all_dumps(ts: TasksView) -> Multiset<Seq<char>> {
    ts.pending.to_multiset().add(
        match ts.current {
            Some(dump) => Multiset::singleton(dump),
            None => Multiset::empty(),
        },
    ).add(ts.completed.to_multiset())
}

/// No dump is lost and none is done twice: each waits, is worked on, or is done.
pub proof fn law_dumps_are_conserved(
    ts: TasksView,
    worker: Seq<char>,
    dump: Seq<char>,
    start: int,
    path: int,
    count: int,
    now: int,
)
    ensures
        all_dumps(ts.checked(now)) == all_dumps(ts),
        all_dumps(ts.assigned(worker, now)) == all_dumps(ts),
        all_dumps(ts.progressed(dump, start, path, now)) == all_dumps(ts),
        all_dumps(ts.completed(dump, start)) == all_dumps(ts),
        all_dumps(ts.initialized(count)) == all_dumps(ts),
{
    broadcast use vstd::seq_lib::group_to_multiset_ensures;

    let c = ts.completed(dump, start);
    if c.current != ts.current {
        assert(c.completed.to_multiset() =~= ts.completed.to_multiset().insert(dump));
    }
    assert(all_dumps(c) =~= all_dumps(ts));
    let n = ts.initialized(count);
    if ts.wants_dump() {
        assert(ts.pending.drop_first() =~= ts.pending.remove(0));
        assert(n.pending.to_multiset() =~= ts.pending.to_multiset().remove(ts.pending[0]));
        assert(ts.pending.contains(ts.pending[0]));
        assert(ts.pending.to_multiset().count(ts.pending[0]) > 0);
    }
    assert(all_dumps(n) =~= all_dumps(ts));
}

/// When the last batch of a dump comes in and all its files were handed out, the dump is done
/// and the next one can start; before that it stays the current one.
pub proof fn law_last_batch_finishes_dump(ts: TasksView, dump: Seq<char>, start: int)
    requires
        ts.current == Some(dump),
        ts.knows(dump, start),
    ensures
        ts.next >= ts.total && ts.batches.len() == 1 ==> {
            &&& ts.completed(dump, start).current is None
            &&& ts.completed(dump, start).completed == ts.completed.push(dump)
            &&& ts.completed(dump, start).wants_dump() == (ts.pending.len() > 0)
        },
        ts.next < ts.total || ts.batches.len() > 1 ==> {
            &&& ts.completed(dump, start).current == Some(dump)
            &&& ts.completed(dump, start).completed == ts.completed
        },
{
    table::lemma_place(ts.batches, batch_id::batch_name(dump, start));
}

} // verus!
