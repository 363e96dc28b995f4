use flate2::write::GzEncoder;
use flate2::Compression;
use master_server::dumps::{count_lines, dump_file_count, parse_dump_list, white_space};
use master_server::paths::{
    data_dir, db_path, dump_list_file, output_file, tasks_state_file, wet_paths_url,
};
use master_server::stats::Stats;
use master_server::status::{can_report, handle_status_req, GLOBAL_TOTAL_FILES};
use master_server::table::Table;
use master_server::tasks::TaskState;
use master_server::workers::{can_ping, handle_ping, PingReq, WorkerStatus};
use std::io::Write;

fn gz(text: &[u8]) -> Vec<u8> {
    let mut e = GzEncoder::new(Vec::new(), Compression::default());
    e.write_all(text).unwrap();
    e.finish().unwrap()
}

fn ping(id: &str, file: i32) -> PingReq {
    PingReq {
        worker_id: id.to_string(),
        current_dump: Some("D".to_string()),
        current_file_index: Some(file),
        ram_usage_bits: Some(1.5f64.to_bits()),
    }
}

#[test]
fn white_space_agrees_with_std() {
    for n in 0..=0x10ffffu32 {
        if let Some(c) = char::from_u32(n) {
            assert_eq!(white_space(c), c.is_whitespace());
        }
    }
}

#[test]
fn lines_agree_with_std() {
    for text in [
        "", "\n", "\r\n", "a", "a\n", "a\nb", "a\r\nb\r", "\n\n", "\r", "a\n\rb\n", "é\n\u{2028}x",
        " x \n\t\n  y\u{3000}\r\n",
    ] {
        assert_eq!(count_lines(text), text.lines().count() as i32, "{:?}", text);
        let mut expected: Vec<String> = text
            .lines()
            .filter(|l| !l.trim().is_empty())
            .map(|s| s.trim().to_string())
            .collect();
        expected.reverse();
        assert_eq!(parse_dump_list(text), expected, "{:?}", text);
    }
}

#[test]
fn counts_the_files_of_a_dump() {
    assert_eq!(dump_file_count(Some(&gz(b"one\ntwo\nthree\n"))), 3);
    assert_eq!(dump_file_count(Some(&gz(b""))), 0);
    assert_eq!(dump_file_count(None), 0);
    assert_eq!(dump_file_count(Some(b"not gzip")), 0);
    assert_eq!(dump_file_count(Some(&gz(&[0xff, b'\n']))), 0);
    let mut cut = gz(b"one\ntwo\n");
    cut.truncate(cut.len() - 3);
    assert_eq!(dump_file_count(Some(&cut)), 0);
}

#[test]
fn places() {
    assert_eq!(data_dir(None), "/opt");
    assert_eq!(data_dir(Some("/d".to_string())), "/d");
    assert_eq!(output_file("/d"), "/d/sovereign_data.bin");
    assert_eq!(tasks_state_file("/d"), "/d/tasks_state.json");
    assert_eq!(dump_list_file("/d"), "/d/common_crawl_list.txt");
    assert_eq!(db_path("/d"), "/d/sovereign_db");
    assert_eq!(
        wet_paths_url("CC-MAIN-2024-10"),
        "https://data.commoncrawl.org/crawl-data/CC-MAIN-2024-10/wet.paths.gz"
    );
}

#[test]
fn counters_add_up() {
    let mut s = Stats::new(7);
    assert_eq!((s.start_time, s.last_save_time), (7, 7));
    assert_eq!(s.record_chunk(10, "a".to_string(), 3), 1);
    assert_eq!(s.record_chunk(5, "b".to_string(), -1), 2);
    assert_eq!(s.record_chunk(1, "a".to_string(), 4), 3);
    assert_eq!(s.total_bytes_received, 16);
    assert_eq!(s.chunks_processed, 3);
    assert_eq!(s.total_wet_files_processed, 2);
    assert_eq!(s.active_colabs, vec!["a".to_string(), "b".to_string()]);
    let row = s.chunks_per_colab.find("a").unwrap();
    assert_eq!(*s.chunks_per_colab.value_at(row), 2);
    assert_eq!(s.chunks_per_colab.len(), 2);
    assert_eq!(s.chunks_per_colab.find("c"), None);
    s.cache_unique_patterns(99);
    assert_eq!(s.cached_unique_patterns, 99);
    assert!(s.can_record(usize::MAX - 16, "a", 0));
    assert!(!s.can_record(usize::MAX - 15, "a", 0));
}

#[test]
fn pings_list_live_workers() {
    let mut workers: Table<WorkerStatus> = Table::new();
    handle_ping(&mut workers, ping("a", 1), 1000);
    handle_ping(&mut workers, ping("b", 2), 1500);
    assert_eq!(workers.len(), 2);
    handle_ping(&mut workers, ping("b", 3), 1899);
    assert_eq!(workers.len(), 2);
    handle_ping(&mut workers, ping("b", 4), 1900);
    assert_eq!(workers.len(), 1);
    assert_eq!(workers.name_at(0), "b");
    assert_eq!(
        *workers.value_at(0),
        WorkerStatus {
            last_ping_time: 1900,
            current_dump: Some("D".to_string()),
            current_file_index: Some(4),
            ram_usage_bits: Some(1.5f64.to_bits()),
        }
    );
    assert!(!can_ping(&workers, "c", 1899));
    assert!(can_ping(&workers, "b", 1899));
    assert!(can_ping(&workers, "c", 1900));
}

#[test]
fn reports() {
    let mut stats = Stats::new(100);
    let mut ts = TaskState::new();
    let mut workers: Table<WorkerStatus> = Table::new();
    let r = handle_status_req(&stats, &ts, &workers, 200);
    assert_eq!(r.uptime_seconds, 100);
    assert_eq!(r.dump_progress, None);
    assert_eq!(r.throughput, None);
    assert_eq!(r.current_dump, None);
    ts.load_dump_list("x\ny\n");
    ts.install_dump("D".to_string(), 8);
    ts.next_path_index = 2;
    stats.record_chunk(64, "a".to_string(), 1);
    handle_ping(&mut workers, ping("a", 1), 105);
    let r = handle_status_req(&stats, &ts, &workers, 110);
    assert_eq!(r.throughput, None);
    let r = handle_status_req(&stats, &ts, &workers, 111);
    assert_eq!(r.throughput, Some((1, 11)));
    assert_eq!(r.dump_progress, Some((2, 8)));
    assert_eq!(r.current_dump, Some("D".to_string()));
    assert_eq!((r.total_files, r.assigned_files), (8, 2));
    assert_eq!((r.pending_dumps, r.in_progress_batches, r.completed_dumps), (2, 0, 0));
    assert_eq!((r.total_bytes_received, r.chunks_processed), (64, 1));
    assert_eq!(r.wet_files_processed, 1);
    assert_eq!(r.live_workers.len(), 1);
    assert_eq!(r.live_workers[0].worker_id, "a");
    assert_eq!(r.live_workers[0].silent_seconds, 6);
    assert_eq!(r.live_workers[0].ram_usage_bits.map(f64::from_bits), Some(1.5));
    assert!(can_report(&stats, &workers, 105));
    assert!(!can_report(&stats, &workers, 104));
    assert_eq!(GLOBAL_TOTAL_FILES, 8_216_667);
}

#[test]
fn tables_keep_their_order() {
    let mut t: Table<i32> = Table::new();
    t.insert("b".to_string(), 1);
    t.insert("a".to_string(), 2);
    t.insert("b".to_string(), 3);
    assert_eq!(t.len(), 2);
    assert_eq!((t.name_at(0).as_str(), *t.value_at(0)), ("b", 3));
    *t.value_mut(1) = 9;
    assert_eq!(*t.value_at(1), 9);
    t.remove(0);
    assert_eq!(t.find("a"), Some(0));
    t.clear();
    assert_eq!(t.len(), 0);
}
