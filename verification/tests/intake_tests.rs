use base64::prelude::BASE64_STANDARD;
use base64::Engine;
use master_server::accumulator::{cut_key, Accumulator, ACCUMULATOR_FLUSH_LIMIT};
use master_server::image::collect_entries;
use master_server::intake::{
    accept_data, decode_patterns, handle_data, receive_data, Chunk, PostDataReq,
};
use master_server::stats::Stats;
use master_server::store::{merged_value, read_count};
use master_server::tasks::{GetTaskQuery, TaskState};
use std::collections::HashMap;

fn payload(json: &str) -> String {
    BASE64_STANDARD.encode(zstd::stream::encode_all(json.as_bytes(), 3).unwrap())
}

fn request(data: Option<String>) -> PostDataReq {
    PostDataReq {
        colab_id: Some("w1".to_string()),
        data_type: "frequency_map".to_string(),
        data,
        dump_id: Some("D".to_string()),
        start_index: 0,
        path_index: 2,
    }
}

fn sorted(mut patterns: Vec<(String, u32)>) -> Vec<(String, u32)> {
    patterns.sort();
    patterns
}

fn p(text: &str, count: u32) -> (String, u32) {
    (text.to_string(), count)
}

#[test]
fn decodes_a_payload() {
    let patterns = decode_patterns(&payload("{\"the\": 3, \"of\": 1}"));
    assert_eq!(sorted(patterns), vec![p("of", 1), p("the", 3)]);
}

#[test]
fn what_cannot_be_decoded_is_empty() {
    assert_eq!(decode_patterns("not base64!"), vec![]);
    assert_eq!(decode_patterns(&BASE64_STANDARD.encode("not compressed")), vec![]);
    assert_eq!(decode_patterns(&payload("[1, 2]")), vec![]);
    assert_eq!(decode_patterns(&payload("{\"a\": -1}")), vec![]);
    assert_eq!(decode_patterns(&payload("{\"a\": 4294967296}")), vec![]);
    assert_eq!(decode_patterns(""), vec![]);
}

#[test]
fn the_last_of_equal_keys_counts() {
    assert_eq!(decode_patterns(&payload("{\"a\": 1, \"a\": 9}")), vec![p("a", 9)]);
}

#[test]
fn rejects_other_payloads() {
    let mut other = request(Some(payload("{}")));
    other.data_type = "something".to_string();
    for req in [other, request(None)] {
        let res = receive_data(req).unwrap_err();
        assert_eq!(res.status, "error");
        assert_eq!(res.message, Some("Invalid payload".to_string()));
        assert_eq!(res.chunk_id, None);
        assert_eq!(res.patterns_added, None);
    }
}

#[test]
fn receives_a_chunk() {
    let data = payload("{\"x\": 4}");
    let chunk = receive_data(request(Some(data.clone()))).unwrap();
    assert_eq!(
        chunk,
        Chunk {
            patterns: vec![p("x", 4)],
            payload_len: data.len(),
            colab_id: "w1".to_string(),
            dump_id: "D".to_string(),
            start_index: 0,
            path_index: 2,
        }
    );
    let mut anonymous = request(Some("??".to_string()));
    anonymous.colab_id = None;
    anonymous.dump_id = None;
    let chunk = receive_data(anonymous).unwrap();
    assert_eq!(chunk.colab_id, "unknown");
    assert_eq!(chunk.dump_id, "unknown");
    assert_eq!(chunk.patterns, vec![]);
    assert_eq!(chunk.payload_len, 2);
}

#[test]
fn takes_in_a_chunk() {
    let mut ts = TaskState::new();
    ts.install_dump("D".to_string(), 3);
    let (_, saved) = ts.handle_get_task(GetTaskQuery { colab_id: Some("w1".to_string()) }, 100);
    assert!(saved);
    let mut stats = Stats::new(50);
    let chunk = receive_data(request(Some(payload("{\"x\": 4, \"y\": 1}")))).unwrap();
    let len = chunk.payload_len;
    let (res, save) = handle_data(&mut ts, &mut stats, chunk, 130);
    assert!(save);
    assert_eq!(res.status, "success");
    assert_eq!(res.message, None);
    assert_eq!(res.chunk_id, Some(1));
    assert_eq!(res.patterns_added, Some(2));
    assert_eq!(stats.total_bytes_received, len);
    assert_eq!(stats.total_wet_files_processed, 1);
    let batch = ts.in_progress_batches.value_at(0);
    assert_eq!(batch.last_ping, 130);
    assert_eq!(batch.resume_path_index, 3);
}

#[test]
fn a_chunk_of_an_unknown_batch_still_counts() {
    let mut ts = TaskState::new();
    let mut stats = Stats::new(0);
    let mut chunk = receive_data(request(Some(payload("{}")))).unwrap();
    chunk.path_index = -1;
    let (res, save) = handle_data(&mut ts, &mut stats, chunk, 5);
    assert!(!save);
    assert_eq!(res.chunk_id, Some(1));
    assert_eq!(res.patterns_added, Some(0));
    assert_eq!(stats.total_wet_files_processed, 0);
    assert_eq!(stats.chunks_processed, 1);
}

#[test]
fn chunks_are_numbered_in_turn() {
    let mut ts = TaskState::new();
    let mut stats = Stats::new(50);
    let mut bytes = 0;
    let mut accepted = 0;
    // Worker, whether the request holds data, and the file that it ends.
    let calls = [("a", true, 0), ("a", false, 1), ("b", true, -1), ("a", true, 2), ("c", false, 3)];
    for (worker, holds_data, path) in calls {
        let data = payload(&format!("{{\"{}\": 1}}", worker.repeat(accepted + 1)));
        let mut req = request(if holds_data { Some(data.clone()) } else { None });
        req.colab_id = Some(worker.to_string());
        req.path_index = path;
        match receive_data(req) {
            Ok(chunk) => {
                accepted += 1;
                bytes += data.len();
                let (res, _) = handle_data(&mut ts, &mut stats, chunk, 60);
                assert_eq!(res.chunk_id, Some(accepted));
            }
            Err(res) => assert_eq!(res.chunk_id, None),
        }
    }
    assert_eq!(accepted, 3);
    assert_eq!(stats.chunks_processed, 3);
    assert_eq!(stats.total_bytes_received, bytes);
    assert_eq!(stats.total_wet_files_processed, 2);
    assert_eq!(stats.active_colabs, vec!["a".to_string(), "b".to_string()]);
    assert_eq!(stats.chunks_per_colab.find("c"), None);
    assert_eq!(*stats.chunks_per_colab.value_at(stats.chunks_per_colab.find("a").unwrap()), 2);
    assert_eq!(stats.total_bytes_written, 0);
    assert_eq!(stats.start_time, 50);
    assert_eq!(stats.cached_unique_patterns, 0);
}

#[test]
fn keys_are_cut_after_255_bytes() {
    assert_eq!(cut_key("abc"), b"abc".to_vec());
    assert_eq!(cut_key(&"a".repeat(255)).len(), 255);
    assert_eq!(cut_key(&"a".repeat(256)), vec![b'a'; 255]);
    // The cut may fall inside a character.
    let text = "é".repeat(200);
    assert_eq!(cut_key(&text), text.as_bytes()[..255].to_vec());
}

#[test]
fn tally_adds_up() {
    let mut acc = Accumulator::new();
    assert!(acc.is_empty());
    assert!(!acc.add_patterns(&vec![p("a", 1), p("b", 2)]));
    assert!(!acc.add_patterns(&vec![p("b", 40), p("c", 0)]));
    assert_eq!(acc.len(), 3);
    assert_eq!(acc.count(b"a"), 1);
    assert_eq!(acc.count(b"b"), 42);
    assert_eq!(acc.count(b"c"), 0);
    assert_eq!(acc.count(b"d"), 0);
    let mut entries = acc.into_entries();
    entries.sort();
    assert_eq!(
        entries,
        vec![(b"a".to_vec(), 1), (b"b".to_vec(), 42), (b"c".to_vec(), 0)]
    );
}

#[test]
fn cut_keys_fall_together() {
    let mut acc = Accumulator::new();
    let long_a = "k".repeat(255) + "a";
    let long_b = "k".repeat(255) + "b";
    acc.add_patterns(&vec![p(&long_a, 5), p(&long_b, 6)]);
    assert_eq!(acc.len(), 1);
    assert_eq!(acc.count(&vec![b'k'; 255]), 11);
}

#[test]
fn order_and_grouping_do_not_matter() {
    let mut one = Accumulator::new();
    one.add_patterns(&vec![p("a", 1), p("b", 2), p("c", 3)]);
    let mut two = Accumulator::new();
    two.add_patterns(&vec![p("c", 3)]);
    two.add_patterns(&vec![p("b", 2), p("a", 1)]);
    let mut x = one.into_entries();
    let mut y = two.into_entries();
    x.sort();
    y.sort();
    assert_eq!(x, y);
}

#[test]
fn overflow_is_told_beforehand() {
    let mut acc = Accumulator::new();
    acc.bump(b"a".to_vec(), u32::MAX - 1);
    assert!(acc.can_add(&vec![p("a", 1), p("b", u32::MAX)]));
    assert!(!acc.can_add(&vec![p("a", 2)]));
    assert!(!acc.can_add(&vec![p("a", 1), p("a", 1)]));
    let long = "k".repeat(255);
    assert!(!acc.can_add(&vec![p(&(long.clone() + "x"), u32::MAX), p(&(long + "y"), 1)]));
    assert_eq!(acc.len(), 1);
}

#[test]
fn taking_empties_the_tally() {
    let mut acc = Accumulator::new();
    acc.add_patterns(&vec![p("a", 1)]);
    let taken = acc.take();
    assert!(acc.is_empty());
    assert_eq!(acc.len(), 0);
    assert_eq!(taken.count(b"a"), 1);
    acc.add_patterns(&vec![p("a", 7)]);
    assert_eq!(acc.count(b"a"), 7);
}

#[test]
fn the_flush_limit() {
    assert_eq!(ACCUMULATOR_FLUSH_LIMIT, 5_000_000);
    let mut acc = Accumulator::new();
    let many: Vec<(String, u32)> = (0..20_000u32).map(|i| (i.to_string(), 1)).collect();
    assert!(!acc.add_patterns(&many));
    assert_eq!(acc.len(), 20_000);
    assert_eq!(acc.count(b"19999"), 1);
}

#[test]
fn what_is_absorbed_stays_below_the_limit() {
    let mut acc = Accumulator::new();
    assert!(acc.absorb(&vec![p("a", 1), p("b", 2)]).is_none());
    assert!(acc.absorb(&vec![p("b", 3)]).is_none());
    assert_eq!(acc.len(), 2);
    assert_eq!(acc.count(b"b"), 5);
}

#[test]
fn a_full_tally_is_handed_out() {
    let mut acc = Accumulator::new();
    for i in 2..ACCUMULATOR_FLUSH_LIMIT {
        acc.bump(i.to_le_bytes().to_vec(), 1);
    }
    assert_eq!(acc.len(), ACCUMULATOR_FLUSH_LIMIT - 2);
    assert!(acc.absorb(&vec![p("a", 1)]).is_none());
    assert_eq!(acc.len(), ACCUMULATOR_FLUSH_LIMIT - 1);
    let full = acc.absorb(&vec![p("a", 4), p("b", 2)]).unwrap();
    assert_eq!(full.len(), ACCUMULATOR_FLUSH_LIMIT);
    assert_eq!(full.count(b"a"), 5);
    assert_eq!(full.count(b"b"), 2);
    assert!(acc.is_empty());
}

#[test]
fn accepting_comes_before_decoding() {
    let (chunk, payload) = accept_data(request(Some("é?".to_string()))).unwrap();
    assert_eq!(payload, "é?");
    assert_eq!(chunk.payload_len, 3);
    assert_eq!(chunk.patterns, vec![]);
    assert!(accept_data(request(None)).is_err());
}

fn write(db: &mut HashMap<Vec<u8>, Vec<u8>>, tally: Accumulator) {
    for (key, added) in tally.into_entries() {
        let value = merged_value(db.get(&key).map(|v| v.as_slice()), added);
        db.insert(key, value);
    }
}

#[test]
fn other_keys_keep_their_bytes() {
    let mut db: HashMap<Vec<u8>, Vec<u8>> = HashMap::new();
    db.insert(b"odd".to_vec(), vec![1, 2]);
    db.insert(b"long".to_vec(), vec![3, 0, 0, 0, 9]);
    db.insert(b"a".to_vec(), vec![3, 0, 0, 0, 9]);
    let mut acc = Accumulator::new();
    acc.add_patterns(&vec![p("a", 1), p("b", 0)]);
    write(&mut db, acc);
    assert_eq!(db.len(), 4);
    assert_eq!(db[&b"odd"[..]], vec![1, 2]);
    assert_eq!(db[&b"long"[..]], vec![3, 0, 0, 0, 9]);
    assert_eq!(db[&b"a"[..]], vec![4, 0, 0, 0]);
    assert_eq!(db[&b"b"[..]], vec![0, 0, 0, 0]);
}

#[test]
fn tallies_can_be_written_in_any_order() {
    let a = vec![p("x", 5), p("y", 300)];
    let b = vec![p("y", 7), p("z", 1)];
    let mut start: HashMap<Vec<u8>, Vec<u8>> = HashMap::new();
    start.insert(b"x".to_vec(), vec![250, 0, 0, 0]);
    let orders = [vec![a.clone(), b.clone()], vec![b.clone(), a.clone()], vec![[a, b].concat()]];
    let mut ends = Vec::new();
    for order in orders {
        let mut db = start.clone();
        for patterns in order {
            let mut acc = Accumulator::new();
            acc.add_patterns(&patterns);
            write(&mut db, acc);
        }
        ends.push(db);
    }
    assert_eq!(ends[0], ends[1]);
    assert_eq!(ends[0], ends[2]);
    assert_eq!(ends[0][&b"x"[..]], vec![255, 0, 0, 0]);
    assert_eq!(ends[0][&b"y"[..]], vec![51, 1, 0, 0]);
}

#[test]
fn rounds_lose_no_count() {
    let mut db: HashMap<Vec<u8>, Vec<u8>> = HashMap::new();
    let mut acc = Accumulator::new();
    let mut stats = Stats::new(0);
    for round in 0..4u32 {
        acc.add_patterns(&vec![p("a", 1 + round), p("b", 2)]);
        acc.add_patterns(&vec![p("a", 10)]);
        let taken = acc.take();
        // What comes in while a tally is being written waits for the next round.
        acc.add_patterns(&vec![p("b", 1)]);
        write(&mut db, taken);
        stats.cache_unique_patterns(db.len());
        assert_eq!(stats.cached_unique_patterns, 2);
    }
    let in_db = |key: &[u8]| read_count(db.get(key).map(|v| v.as_slice()));
    assert_eq!(in_db(b"a"), 1 + 2 + 3 + 4 + 40);
    assert_eq!(acc.count(b"a"), 0);
    assert_eq!(in_db(b"b") + acc.count(b"b"), 12);
    assert_eq!(acc.count(b"b"), 1);
    assert_eq!(stats.chunks_processed, 0);
}

#[test]
fn writing_the_tally_adds_it_to_the_database() {
    let mut db: HashMap<Vec<u8>, Vec<u8>> = HashMap::new();
    db.insert(b"a".to_vec(), vec![200, 0, 0, 0]);
    db.insert(b"z".to_vec(), vec![1, 0, 0, 0]);
    let mut acc = Accumulator::new();
    acc.add_patterns(&vec![p("a", 100), p("b", 2)]);
    for (key, added) in acc.take().into_entries() {
        let value = merged_value(db.get(&key).map(|v| v.as_slice()), added);
        db.insert(key, value);
    }
    assert_eq!(read_count(db.get(&b"a"[..]).map(|v| v.as_slice())), 300);
    assert_eq!(read_count(db.get(&b"b"[..]).map(|v| v.as_slice())), 2);
    assert_eq!(read_count(db.get(&b"z"[..]).map(|v| v.as_slice())), 1);
    let mut entries = collect_entries(db.into_iter().collect());
    entries.sort_by(|x, y| x.key.cmp(&y.key));
    let freqs: Vec<u32> = entries.iter().map(|e| e.freq).collect();
    assert_eq!(freqs, vec![300, 2, 1]);
}
