//! What the server reports of itself, as far as it is whole numbers.
use vstd::prelude::*;

use crate::stats::Stats;
use crate::table::Table;
use crate::tasks::TaskState;
use crate::text;
use crate::workers;
use crate::workers::WorkerStatus;

verus! {

/// The number of files in all dumps together.
pub const GLOBAL_TOTAL_FILES: u64 = 8_216_667;

/// A worker in the report.
#[derive(Clone, Debug, PartialEq, Eq)]
pub struct WorkerReport {
    pub worker_id: String,
    pub silent_seconds: u64,
    pub current_dump: Option<String>,
    pub current_file_index: Option<i32>,
    pub ram_usage_bits: Option<u64>,
}

/// The report. `dump_progress` is the share of the current dump that was handed out, as
/// numerator and denominator; `throughput` is the number of files that came in and the seconds
/// that they took, once that tells anything.
#[derive(Clone, Debug, PartialEq, Eq)]
pub struct StatusReport {
    pub uptime_seconds: u64,
    pub dump_progress: Option<(i32, i32)>,
    pub throughput: Option<(usize, u64)>,
    pub total_bytes_received: usize,
    pub chunks_processed: usize,
    pub unique_patterns: usize,
    pub live_workers: Vec<WorkerReport>,
    pub wet_files_processed: usize,
    pub current_dump: Option<String>,
    pub total_files: i32,
    pub assigned_files: i32,
    pub pending_dumps: usize,
    pub in_progress_batches: usize,
    pub completed_dumps: usize,
}

/// The report on one worker.
pub open spec fn reports(r: WorkerReport, row: (Seq<char>, WorkerStatus), now: int) -> bool {
    &&& r.worker_id@ == row.0
    &&& r.silent_seconds == now - row.1.last_ping_time
    &&& r.current_dump == row.1.current_dump
    &&& r.current_file_index == row.1.current_file_index
    &&& r.ram_usage_bits == row.1.ram_usage_bits
}

/// Whether the clock has not gone back behind the start or behind a report of a worker.
pub fn can_report(stats: &Stats, live_workers: &Table<WorkerStatus>, now: u64) -> (can: bool)
    ensures
        can == (stats.start_time <= now && workers::all_heard_by(live_workers@, now as int)),
{
    let mut i: usize = 0;
    while i < live_workers.len()
        invariant
            i <= live_workers@.len(),
            forall|k: int|
                0 <= k < i ==> (#[trigger] live_workers@[k]).1.last_ping_time <= now,
        decreases live_workers@.len() - i,
    {
        if live_workers.value_at(i).last_ping_time > now {
            return false;
        }
        i = i + 1;
    }
    stats.start_time <= now
}

fn report_workers(live_workers: &Table<WorkerStatus>, now: u64) -> (reports_out: Vec<WorkerReport>)
    requires
        workers::all_heard_by(live_workers@, now as int),
    ensures
        reports_out@.len() == live_workers@.len(),
        forall|i: int|
            0 <= i < live_workers@.len() ==> reports(
                #[trigger] reports_out@[i],
                live_workers@[i],
                now as int,
            ),
{
    let mut out: Vec<WorkerReport> = Vec::new();
    while out.len() < live_workers.len()
        invariant
            workers::all_heard_by(live_workers@, now as int),
            out@.len() <= live_workers@.len(),
            forall|i: int|
                0 <= i < out@.len() ==> reports(
                    #[trigger] out@[i],
                    live_workers@[i],
                    now as int,
                ),
        decreases live_workers@.len() - out@.len(),
    {
        let i = out.len();
        let status = live_workers.value_at(i);
        assert(live_workers@[i as int].1.last_ping_time <= now);
        out.push(
            WorkerReport {
                worker_id: live_workers.name_at(i).clone(),
                silent_seconds: now - status.last_ping_time,
                current_dump: text::clone_text(&status.current_dump),
                current_file_index: status.current_file_index,
                ram_usage_bits: status.ram_usage_bits,
            },
        );
    }
    out
}

/// Reports on the server. The share of the dump is told where it has files, and the throughput
/// after more than ten seconds with at least one file.
pub fn handle_status_req(
    stats: &Stats,
    tasks: &TaskState,
    live_workers: &Table<WorkerStatus>,
    now: u64,
) -> (r: StatusReport)
    requires
        stats.start_time <= now,
        workers::all_heard_by(live_workers@, now as int),
    ensures
        r.uptime_seconds == now - stats.start_time,
        r.dump_progress == (if tasks@.total > 0 {
            Some((tasks.next_path_index, tasks.current_dump_total_files))
        } else {
            None::<(i32, i32)>
        }),
        r.throughput == (if now - stats.start_time > 10 && stats@.wet_files > 0 {
            Some((stats.total_wet_files_processed, (now - stats.start_time) as u64))
        } else {
            None::<(usize, u64)>
        }),
        r.total_bytes_received == stats@.bytes_received,
        r.chunks_processed == stats@.chunks,
        r.unique_patterns == stats@.unique_patterns,
        r.live_workers@.len() == live_workers@.len(),
        forall|i: int|
            0 <= i < live_workers@.len() ==> reports(
                #[trigger] r.live_workers@[i],
                live_workers@[i],
                now as int,
            ),
        forall|i: int|
            0 <= i < live_workers@.len() ==> {
                &&& (#[trigger] r.live_workers@[i]).worker_id@ == live_workers@[i].0
                &&& r.live_workers@[i].silent_seconds == now - live_workers@[i].1.last_ping_time
                &&& r.live_workers@[i].current_dump == live_workers@[i].1.current_dump
                &&& r.live_workers@[i].current_file_index == live_workers@[i].1.current_file_index
                &&& r.live_workers@[i].ram_usage_bits == live_workers@[i].1.ram_usage_bits
            },
        r.total_bytes_received == stats.total_bytes_received,
        r.chunks_processed == stats.chunks_processed,
        r.unique_patterns == stats.cached_unique_patterns,
        r.wet_files_processed == stats.total_wet_files_processed,
        r.total_files == tasks.current_dump_total_files,
        r.assigned_files == tasks.next_path_index,
        r.pending_dumps == tasks.pending_dumps@.len(),
        r.in_progress_batches == tasks.in_progress_batches@.len(),
        r.completed_dumps == tasks.completed_dumps@.len(),
        r.wet_files_processed == stats@.wet_files,
        text::opt_text(r.current_dump) == tasks@.current,
        r.total_files == tasks@.total,
        r.assigned_files == tasks@.next,
        r.pending_dumps == tasks@.pending.len(),
        r.in_progress_batches == tasks@.batches.len(),
        r.completed_dumps == tasks@.completed.len(),
{
    let uptime = now - stats.start_time;
    let dump_progress = if tasks.current_dump_total_files > 0 {
        Some((tasks.next_path_index, tasks.current_dump_total_files))
    } else {
        None
    };
    let throughput = if uptime > 10 && stats.total_wet_files_processed > 0 {
        Some((stats.total_wet_files_processed, uptime))
    } else {
        None
    };
    StatusReport {
        uptime_seconds: uptime,
        dump_progress,
        throughput,
        total_bytes_received: stats.total_bytes_received,
        chunks_processed: stats.chunks_processed,
        unique_patterns: stats.cached_unique_patterns,
        live_workers: report_workers(live_workers, now),
        wet_files_processed: stats.total_wet_files_processed,
        current_dump: text::clone_text(&tasks.current_dump),
        total_files: tasks.current_dump_total_files,
        assigned_files: tasks.next_path_index,
        pending_dumps: tasks.pending_dumps.len(),
        in_progress_batches: tasks.in_progress_batches.len(),
        completed_dumps: tasks.completed_dumps.len(),
    }
}

} // verus!
