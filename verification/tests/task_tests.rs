use master_server::batch_id::batch_id;
use master_server::tasks::{GetTaskQuery, TaskState, BATCH_SIZE, TASK_TIMEOUT_SECONDS};

fn ask(name: &str) -> GetTaskQuery {
    GetTaskQuery { colab_id: Some(name.to_string()) }
}

fn with_dump(files: i32) -> TaskState {
    let mut ts = TaskState::new();
    ts.load_dump_list("second\nfirst\n");
    let next = ts.take_next_dump().unwrap();
    assert_eq!(next, "first");
    ts.install_dump(next, files);
    ts
}

#[test]
fn names_of_batches() {
    assert_eq!(batch_id("CC-2024", 0), "CC-2024:0");
    assert_eq!(batch_id("a:b", 1205), "a:b:1205");
    assert_eq!(batch_id("", -7), ":-7");
    assert_eq!(batch_id("x", i32::MAX), format!("x:{}", i32::MAX));
    assert_eq!(batch_id("x", i32::MIN), format!("x:{}", i32::MIN));
}

#[test]
fn nothing_to_do() {
    let mut ts = TaskState::new();
    let (res, save) = ts.handle_get_task(ask("w"), 10);
    assert!(!save);
    assert_eq!(res.status, "empty");
    assert_eq!(res.dump_id, None);
    assert_eq!((res.start_index, res.end_index, res.resume_index), (0, 0, 0));
    assert_eq!(res.message, Some("No pending tasks".to_string()));
}

#[test]
fn queue_runs_from_the_last_line() {
    let mut ts = TaskState::new();
    ts.load_dump_list(" old \r\n\n  \t\nnew");
    assert_eq!(ts.pending_dumps, vec!["new".to_string(), "old".to_string()]);
    assert_eq!(ts.take_next_dump(), Some("new".to_string()));
    ts.install_dump("new".to_string(), 0);
    // One dump at a time.
    assert_eq!(ts.take_next_dump(), None);
    assert_eq!(ts.pending_dumps, vec!["old".to_string()]);
}

#[test]
fn hands_out_files_in_batches() {
    let mut ts = with_dump(12);
    let mut spans = Vec::new();
    for name in ["a", "b", "c"] {
        let (res, save) = ts.handle_get_task(ask(name), 10);
        assert!(save);
        assert_eq!(res.status, "success");
        assert_eq!(res.dump_id, Some("first".to_string()));
        assert_eq!(res.resume_index, res.start_index);
        assert_eq!(res.message, None);
        spans.push((res.start_index, res.end_index));
    }
    assert_eq!(spans, vec![(0, 5), (5, 10), (10, 12)]);
    assert_eq!(BATCH_SIZE, 5);
    assert_eq!(ts.next_path_index, 12);
    let (res, _) = ts.handle_get_task(ask("d"), 10);
    assert_eq!(res.status, "empty");
    assert_eq!(ts.in_progress_batches.name_at(1), "first:5");
}

#[test]
fn new_workers_are_served_in_turn() {
    let mut ts = with_dump(23);
    for i in 0..8i32 {
        let (res, _) = ts.handle_get_task(ask(&format!("w{}", i)), 100 + i as u64);
        if 5 * i < 23 {
            assert_eq!(res.status, "success");
            assert_eq!((res.start_index, res.end_index), (5 * i, (5 * i + 5).min(23)));
            assert_eq!(res.resume_index, 5 * i);
        } else {
            assert_eq!(res.status, "empty");
        }
    }
    assert_eq!(ts.next_path_index, 23);
    assert_eq!(ts.in_progress_batches.len(), 5);
}

#[test]
fn progress_is_resumed_by_the_same_worker() {
    let mut ts = with_dump(100);
    ts.handle_get_task(ask("a"), 10);
    ts.handle_get_task(ask("b"), 10);
    assert!(ts.record_progress("first", 5, 7, 50));
    let (res, _) = ts.handle_get_task(ask("b"), 50 + TASK_TIMEOUT_SECONDS);
    assert_eq!(res.dump_id, Some("first".to_string()));
    assert_eq!((res.start_index, res.end_index, res.resume_index), (5, 10, 8));
}

#[test]
fn asking_again_gives_the_same_batch() {
    let mut ts = with_dump(100);
    let (first, _) = ts.handle_get_task(ask("a"), 10);
    let (again, save) = ts.handle_get_task(ask("a"), 10 + TASK_TIMEOUT_SECONDS);
    assert!(save);
    assert_eq!(first, again);
    assert_eq!(ts.in_progress_batches.len(), 1);
    let batch = ts.in_progress_batches.value_at(0);
    assert_eq!(batch.last_ping, 10 + TASK_TIMEOUT_SECONDS);
    assert_eq!(batch.start_time, 10);
}

#[test]
fn silent_workers_lose_their_batch() {
    let mut ts = with_dump(100);
    ts.handle_get_task(ask("a"), 10);
    assert!(!ts.check_task_timeouts(10 + 7200));
    assert_eq!(ts.in_progress_batches.value_at(0).colab_id, Some("a".to_string()));
    assert!(ts.check_task_timeouts(10 + 7201));
    assert_eq!(ts.in_progress_batches.value_at(0).colab_id, None);
    assert_eq!(ts.in_progress_batches.len(), 1);
}

#[test]
fn released_batches_are_resumed_first() {
    let mut ts = with_dump(100);
    ts.handle_get_task(ask("a"), 10);
    assert!(ts.record_progress("first", 0, 2, 20));
    let (res, save) = ts.handle_get_task(ask("b"), 20 + 7201);
    assert!(save);
    assert_eq!((res.start_index, res.end_index, res.resume_index), (0, 5, 3));
    assert_eq!(ts.next_path_index, 5);
    let batch = ts.in_progress_batches.value_at(0);
    assert_eq!(batch.colab_id, Some("b".to_string()));
    assert_eq!(batch.start_time, 20 + 7201);
    // The first worker comes back too late and is given other files.
    let (res, _) = ts.handle_get_task(ask("a"), 20 + 7202);
    assert_eq!((res.start_index, res.end_index), (5, 10));
}

#[test]
fn workers_without_a_name_share_one() {
    let mut ts = with_dump(100);
    let (a, _) = ts.handle_get_task(GetTaskQuery { colab_id: None }, 1);
    let (b, _) = ts.handle_get_task(ask("unknown"), 2);
    assert_eq!(a, b);
}

#[test]
fn progress_keeps_a_batch() {
    let mut ts = with_dump(100);
    ts.handle_get_task(ask("a"), 10);
    assert!(ts.record_progress("first", 0, -1, 5000));
    let batch = ts.in_progress_batches.value_at(0);
    assert_eq!(batch.resume_path_index, 0);
    assert_eq!(batch.last_ping, 5000);
    assert!(!ts.record_progress("first", 5, 1, 6000));
    assert!(!ts.record_progress("other", 0, 1, 6000));
    assert!(ts.knows_batch("first", 0));
    assert!(!ts.knows_batch("first", 5));
}

#[test]
fn completing_a_dump() {
    let mut ts = with_dump(7);
    ts.handle_get_task(ask("a"), 10);
    ts.handle_get_task(ask("b"), 10);
    assert!(!ts.handle_complete("first", 3));
    assert!(!ts.handle_complete("second", 0));
    assert!(ts.handle_complete("first", 0));
    assert_eq!(ts.current_dump, Some("first".to_string()));
    assert!(!ts.handle_complete("first", 0));
    assert!(ts.handle_complete("first", 5));
    assert_eq!(ts.current_dump, None);
    assert_eq!(ts.current_dump_total_files, 0);
    assert_eq!(ts.completed_dumps, vec!["first".to_string()]);
    assert_eq!(ts.take_next_dump(), Some("second".to_string()));
    ts.install_dump("second".to_string(), 1);
    assert_eq!(ts.next_path_index, 0);
    let (res, _) = ts.handle_get_task(ask("a"), 20);
    assert_eq!(res.dump_id, Some("second".to_string()));
    assert_eq!((res.start_index, res.end_index), (0, 1));
}

#[test]
fn a_dump_stays_while_files_are_left() {
    let mut ts = with_dump(7);
    ts.handle_get_task(ask("a"), 10);
    assert!(ts.handle_complete("first", 0));
    assert_eq!(ts.current_dump, Some("first".to_string()));
    assert_eq!(ts.completed_dumps.len(), 0);
}

#[test]
fn guards() {
    let mut ts = with_dump(i32::MAX);
    assert!(ts.can_get_task(&ask("a"), 0));
    ts.next_path_index = i32::MAX - 5;
    assert!(ts.can_get_task(&ask("a"), 0));
    ts.next_path_index = i32::MAX - 4;
    assert!(!ts.can_get_task(&ask("a"), 0));
    ts.next_path_index = i32::MAX;
    assert!(ts.can_get_task(&ask("a"), 0));
    ts.next_path_index = 0;
    ts.handle_get_task(ask("a"), 100);
    assert!(ts.check_clock(100));
    assert!(!ts.check_clock(99));
    assert!(!ts.can_get_task(&ask("a"), 99));
    ts.next_path_index = i32::MAX - 4;
    assert!(ts.can_get_task(&ask("a"), 100));
    assert!(!ts.can_get_task(&ask("b"), 100));
    assert!(ts.can_get_task(&ask("b"), 100 + 7201));
}

#[test]
fn no_dump_is_lost() {
    let mut ts = TaskState::new();
    ts.load_dump_list("c\nb\na\n");
    let mut done = Vec::new();
    while let Some(dump) = ts.take_next_dump() {
        ts.install_dump(dump.clone(), 6);
        ts.handle_get_task(ask("x"), 1);
        ts.handle_get_task(ask("y"), 1);
        assert!(ts.handle_complete(&dump, 5));
        assert!(ts.handle_complete(&dump, 0));
        done.push(dump);
        assert_eq!(ts.completed_dumps, done);
        assert_eq!(ts.pending_dumps.len() + ts.completed_dumps.len(), 3);
    }
    assert_eq!(done, vec!["a".to_string(), "b".to_string(), "c".to_string()]);
}

#[test]
fn completed_files_are_not_handed_out_again() {
    let mut ts = with_dump(20);
    ts.handle_get_task(ask("a"), 1);
    assert!(ts.handle_complete("first", 0));
    let (res, _) = ts.handle_get_task(ask("a"), 2);
    assert_eq!((res.start_index, res.end_index), (5, 10));
}
