//! The workers that report that they are alive.
use vstd::prelude::*;

use crate::table;
use crate::table::Table;

verus! {

/// A worker that is silent for this long is no longer listed.
pub const WORKER_TIMEOUT_SECONDS: u64 = 900;

/// What a worker last reported. Its memory use, in megabytes, is kept as the bit pattern of the
/// floating-point number.
#[derive(Clone, Debug, PartialEq, Eq)]
pub struct WorkerStatus {
    pub last_ping_time: u64,
    pub current_dump: Option<String>,
    pub current_file_index: Option<i32>,
    pub ram_usage_bits: Option<u64>,
}

/// A report from a worker.
#[derive(Clone, Debug, PartialEq, Eq)]
pub struct PingReq {
    pub worker_id: String,
    pub current_dump: Option<String>,
    pub current_file_index: Option<i32>,
    pub ram_usage_bits: Option<u64>,
}

/// What is kept of a report that came in at `now`.
pub open spec fn reported(req: PingReq, now: u64) -> WorkerStatus {
    WorkerStatus {
        last_ping_time: now,
        current_dump: req.current_dump,
        current_file_index: req.current_file_index,
        ram_usage_bits: req.ram_usage_bits,
    }
}

/// The worker was heard of a short time before `now`.
pub open spec fn is_live(status: WorkerStatus, now: int) -> bool {
    now - status.last_ping_time < WORKER_TIMEOUT_SECONDS
}

/// The workers that are live, in order.
pub open spec fn live(rows: Seq<(Seq<char>, WorkerStatus)>, now: int) -> Seq<
    (Seq<char>, WorkerStatus),
>
    decreases rows.len(),
{
    if rows.len() == 0 {
        Seq::empty()
    } else if is_live(rows.last().1, now) {
        live(rows.drop_last(), now).push(rows.last())
    } else {
        live(rows.drop_last(), now)
    }
}

/// No worker but `except` was heard of after `now`.
pub open spec fn others_heard_by(
    rows: Seq<(Seq<char>, WorkerStatus)>,
    except: Seq<char>,
    now: int,
) -> bool {
    forall|i: int|
        0 <= i < rows.len() && (#[trigger] rows[i]).0 != except ==> rows[i].1.last_ping_time <= now
}

/// No worker was heard of after `now`.
pub open spec fn all_heard_by(rows: Seq<(Seq<char>, WorkerStatus)>, now: int) -> bool {
    forall|i: int| 0 <= i < rows.len() ==> (#[trigger] rows[i]).1.last_ping_time <= now
}

/// Whether no worker but the one that reports was heard of after `now`.
pub fn can_ping(workers: &Table<WorkerStatus>, worker_id: &str, now: u64) -> (can: bool)
    ensures
        can == others_heard_by(workers@, worker_id@, now as int),
{
    let mut i: usize = 0;
    while i < workers.len()
        invariant
            i <= workers@.len(),
            forall|k: int|
                0 <= k < i && (#[trigger] workers@[k]).0 != worker_id@
                    ==> workers@[k].1.last_ping_time <= now,
        decreases workers@.len() - i,
    {
        if workers.value_at(i).last_ping_time > now && !crate::text::same_text(
            workers.name_at(i).as_str(),
            worker_id,
        ) {
            return false;
        }
        i = i + 1;
    }
    true
}

/// Notes a report, and drops the workers that were silent for too long.
pub fn handle_ping(workers: &mut Table<WorkerStatus>, req: PingReq, now: u64)
    requires
        table::distinct(old(workers)@),
        others_heard_by(old(workers)@, req.worker_id@, now as int),
    ensures
        final(workers)@ == live(
            table::inserted(old(workers)@, req.worker_id@, reported(req, now)),
            now as int,
        ),
        table::distinct(final(workers)@),
{
    let status = WorkerStatus {
        last_ping_time: now,
        current_dump: req.current_dump,
        current_file_index: req.current_file_index,
        ram_usage_bits: req.ram_usage_bits,
    };
    proof {
        table::lemma_place(workers@, req.worker_id@);
    }
    workers.insert(req.worker_id, status);
    let ghost all = workers@;
    let ghost mut seen: int = 0;
    let mut i: usize = 0;
    assert(all_heard_by(all, now as int)) by {
        assert forall|k: int| 0 <= k < all.len() implies (#[trigger] all[k]).1.last_ping_time
            <= now by {
            if all[k].0 != req.worker_id@ {
                assert(all[k] == old(workers)@[k]);
            } else if k < old(workers)@.len() && !(all[k] == (req.worker_id@, status)) {
                table::lemma_inserted(old(workers)@, req.worker_id@, status);
                let p = table::place(old(workers)@, req.worker_id@) as int;
                assert(all[p] == (req.worker_id@, status));
                if k < p {
                    assert(all[k].0 != all[p].0);
                } else {
                    assert(all[p].0 != all[k].0);
                }
            }
        }
    }
    assert(workers@ =~= live(all.subrange(0, 0), now as int) + all.subrange(0, all.len() as int));
    while i < workers.len()
        invariant
            0 <= seen <= all.len(),
            all_heard_by(all, now as int),
            table::distinct(workers@),
            i == live(all.subrange(0, seen), now as int).len(),
            workers@ == live(all.subrange(0, seen), now as int) + all.subrange(
                seen,
                all.len() as int,
            ),
        decreases workers@.len() - i,
    {
        let ghost kept = live(all.subrange(0, seen), now as int);
        assert(all.subrange(0, seen + 1).drop_last() =~= all.subrange(0, seen));
        assert(workers@[i as int] == all[seen]);
        if now - workers.value_at(i).last_ping_time < WORKER_TIMEOUT_SECONDS {
            assert(workers@ =~= kept.push(all[seen]) + all.subrange(seen + 1, all.len() as int));
            i = i + 1;
        } else {
            workers.remove(i);
            assert(workers@ =~= kept + all.subrange(seen + 1, all.len() as int));
        }
        proof {
            seen = seen + 1;
        }
    }
    assert(all.subrange(0, seen) =~= all);
    assert(workers@ =~= live(all, now as int));
}

proof fn lemma_live(rows: Seq<(Seq<char>, WorkerStatus)>, now: int)
    ensures
        forall|i: int|
            0 <= i < live(rows, now).len() ==> is_live((#[trigger] live(rows, now)[i]).1, now)
                && rows.contains(live(rows, now)[i]),
        forall|i: int|
            0 <= i < rows.len() && is_live((#[trigger] rows[i]).1, now) ==> live(
                rows,
                now,
            ).contains(rows[i]),
    decreases rows.len(),
{
    if rows.len() > 0 {
        let before = rows.drop_last();
        let a = live(before, now);
        let b = live(rows, now);
        lemma_live(before, now);
        assert forall|i: int| 0 <= i < b.len() implies is_live((#[trigger] b[i]).1, now)
            && rows.contains(b[i]) by {
            if i < a.len() {
                assert(b[i] == a[i]);
                let k = choose|k: int| 0 <= k < before.len() && before[k] == a[i];
                assert(rows[k] == b[i]);
            } else {
                assert(b[i] == rows[rows.len() - 1]);
            }
        }
        assert forall|i: int| 0 <= i < rows.len() && is_live((#[trigger] rows[i]).1, now) implies
            b.contains(rows[i]) by {
            if i < before.len() {
                assert(before[i] == rows[i]);
                let k = choose|k: int| 0 <= k < a.len() && a[k] == rows[i];
                assert(b[k] == rows[i]);
            } else {
                assert(b[a.len() as int] == rows[i]);
            }
        }
    }
}

/// After a report the worker that sent it is listed with what it reported; every other worker is
/// listed as before, if it was heard of in time, and dropped else.
pub proof fn law_ping_lists_the_live(
    rows: Seq<(Seq<char>, WorkerStatus)>,
    req: PingReq,
    now: u64,
    row: (Seq<char>, WorkerStatus),
)
    requires
        table::distinct(rows),
    ensures
        live(table::inserted(rows, req.worker_id@, reported(req, now)), now as int).contains(row)
            == if row.0 == req.worker_id@ {
            row.1 == reported(req, now)
        } else {
            rows.contains(row) && is_live(row.1, now as int)
        },
{
    let id = req.worker_id@;
    let status = reported(req, now);
    let all = table::inserted(rows, id, status);
    let after = live(all, now as int);
    lemma_live(all, now as int);
    table::lemma_place(rows, id);
    table::lemma_inserted(rows, id, status);
    let p = table::place(rows, id) as int;
    assert(all[p] == (id, status));
    assert(is_live(all[p].1, now as int));
    assert(after.contains((id, status)));
    if after.contains(row) {
        let i = choose|i: int| 0 <= i < after.len() && after[i] == row;
        assert(all.contains(after[i]));
        let k = choose|k: int| 0 <= k < all.len() && all[k] == row;
        if row.0 == id {
            if k < p {
                assert(all[k].0 != all[p].0);
            }
            if p < k {
                assert(all[p].0 != all[k].0);
            }
        } else {
            assert(rows[k] == row);
        }
    }
    if row.0 != id && rows.contains(row) && is_live(row.1, now as int) {
        let k = choose|k: int| 0 <= k < rows.len() && rows[k] == row;
        assert(all[k] == row);
        assert(after.contains(all[k]));
    }
}

/// After a report at `now` the workers are these: the one that reported, with all that it reported
/// and heard of now, and of the others those that were heard of less than fifteen minutes before,
/// as they were.
pub proof fn law_ping_by_the_clock(
    rows: Seq<(Seq<char>, WorkerStatus)>,
    req: PingReq,
    now: u64,
    name: Seq<char>,
    status: WorkerStatus,
)
    requires
        table::distinct(rows),
    ensures
        ({
            let after = live(
                table::inserted(rows, req.worker_id@, reported(req, now)),
                now as int,
            );
            &&& name == req.worker_id@ ==> after.contains((name, status)) == (status
                == (WorkerStatus {
                last_ping_time: now,
                current_dump: req.current_dump,
                current_file_index: req.current_file_index,
                ram_usage_bits: req.ram_usage_bits,
            }))
            &&& name != req.worker_id@ ==> after.contains((name, status)) == (rows.contains(
                (name, status),
            ) && now - status.last_ping_time < 900)
        }),
{
    law_ping_lists_the_live(rows, req, now, (name, status));
}

/// The workers that are listed are the live ones, in the order in which they stood.
pub proof fn law_live_workers_keep_their_order(rows: Seq<(Seq<char>, WorkerStatus)>, now: int)
    ensures
        live(rows, now) == rows.filter(
            |row: (Seq<char>, WorkerStatus)| now - row.1.last_ping_time < 900,
        ),
    decreases rows.len(),
{
    reveal(Seq::filter);
    if rows.len() > 0 {
        law_live_workers_keep_their_order(rows.drop_last(), now);
    } else {
        assert(live(rows, now) =~= rows);
    }
}

/// The clock has not gone back where no worker, or none but the one that reports, was heard of
/// later than now.
pub proof fn law_clock_of_workers(
    rows: Seq<(Seq<char>, WorkerStatus)>,
    except: Seq<char>,
    now: int,
)
    ensures
        all_heard_by(rows, now) == (forall|i: int|
            0 <= i < rows.len() ==> (#[trigger] rows[i]).1.last_ping_time <= now),
        others_heard_by(rows, except, now) == (forall|i: int|
            0 <= i < rows.len() && (#[trigger] rows[i]).0 != except ==> rows[i].1.last_ping_time
                <= now),
{
}

} // verus!
