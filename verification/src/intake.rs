//! Chunks of counted patterns that workers send in.
use vstd::prelude::*;

use crate::accumulator;
use crate::outside;
use crate::stats;
use crate::stats::{Stats, StatsView};
use crate::task_laws;
use crate::tasks::TaskState;
use crate::text;

verus! {

/// What a worker sends.
#[derive(Clone, Debug, PartialEq, Eq)]
pub struct PostDataReq {
    pub colab_id: Option<String>,
    pub data_type: String,
    pub data: Option<String>,
    pub dump_id: Option<String>,
    pub start_index: i32,
    pub path_index: i32,
}

/// What the worker is answered.
#[derive(Clone, Debug, PartialEq, Eq)]
pub struct PostDataRes {
    pub status: String,
    pub message: Option<String>,
    pub chunk_id: Option<usize>,
    pub patterns_added: Option<usize>,
}

/// A request that was accepted, with its patterns.
#[derive(Clone, Debug, PartialEq, Eq)]
pub struct Chunk {
    pub patterns: Vec<(String, u32)>,
    pub payload_len: usize,
    pub colab_id: String,
    pub dump_id: String,
    pub start_index: i32,
    pub path_index: i32,
}

/// The request holds a frequency map.
pub open spec fn acceptable(req: PostDataReq) -> bool {
    req.data_type@ == "frequency_map"@ && req.data is Some
}

/// The answer to a request that holds no frequency map.
pub open spec fn is_rejection(res: PostDataRes) -> bool {
    &&& res.status@ == "error"@
    &&& text::opt_text(res.message) == Some("Invalid payload"@)
    &&& res.chunk_id is None
    &&& res.patterns_added is None
}

/// The counts in a payload: a JSON object, compressed with Zstandard, in Base64. What cannot be
/// decoded holds none.
pub open spec fn decoded_counts(payload: Seq<char>) -> Map<Seq<char>, u32> {
    let compressed = match outside::base64_bytes(payload) {
        Some(bytes) => bytes,
        None => Seq::empty(),
    };
    match outside::json_counts(outside::zstd_text(compressed)) {
        Some(counts) => counts,
        None => Map::empty(),
    }
}

/// Decodes the counts in a payload.
pub fn decode_patterns(payload: &str) -> (patterns: Vec<(String, u32)>)
    ensures
        accumulator::lists_patterns(
            accumulator::pattern_views(patterns@),
            decoded_counts(payload@),
        ),
        patterns@.len() == decoded_counts(payload@).len(),
{
    let compressed: Vec<u8> = match outside::decode_base64(payload) {
        Some(bytes) => bytes,
        None => Vec::new(),
    };
    let json = outside::read_zstd(compressed.as_slice());
    let patterns: Vec<(String, u32)> = match outside::parse_counts(json.as_str()) {
        Some(patterns) => patterns,
        None => Vec::new(),
    };
    proof {
        accumulator::lemma_lists_patterns_len(
            accumulator::pattern_views(patterns@),
            decoded_counts(payload@),
        );
    }
    patterns
}

/// Accepts a request, or answers that it holds no frequency map. A chunk that is accepted has no
/// patterns as yet; the payload to decode them from comes with it.
pub fn accept_data(req: PostDataReq) -> (accepted: Result<(Chunk, String), PostDataRes>)
    ensures
        match accepted {
            Ok((chunk, payload)) => {
                &&& acceptable(req)
                &&& payload@ == req.data->0@
                &&& chunk.patterns@.len() == 0
                &&& chunk.payload_len == vstd::utf8::encode_utf8(req.data->0@).len()
                &&& chunk.colab_id@ == text::named(text::opt_text(req.colab_id))
                &&& chunk.dump_id@ == text::named(text::opt_text(req.dump_id))
                &&& chunk.start_index == req.start_index
                &&& chunk.path_index == req.path_index
            },
            Err(res) => !acceptable(req) && is_rejection(res),
        },
        accepted is Ok == (req.data_type@ == "frequency_map"@ && req.data is Some),
        accepted matches Err(res) ==> res.status@ == "error"@ && text::opt_text(res.message) == Some(
            "Invalid payload"@,
        ) && res.chunk_id is None && res.patterns_added is None,
{
    if text::same_text(req.data_type.as_str(), "frequency_map") {
        if let Some(data) = req.data {
            let chunk = Chunk {
                patterns: Vec::new(),
                payload_len: data.as_str().as_bytes().len(),
                colab_id: text::or_unknown(req.colab_id),
                dump_id: text::or_unknown(req.dump_id),
                start_index: req.start_index,
                path_index: req.path_index,
            };
            return Ok((chunk, data));
        }
    }
    Err(
        PostDataRes {
            status: "error".to_owned(),
            message: Some("Invalid payload".to_owned()),
            chunk_id: None,
            patterns_added: None,
        },
    )
}

/// Accepts a request and decodes its patterns, or answers that it holds no frequency map.
pub fn receive_data(req: PostDataReq) -> (received: Result<Chunk, PostDataRes>)
    ensures
        match received {
            Ok(chunk) => {
                &&& acceptable(req)
                &&& accumulator::lists_patterns(
                    accumulator::pattern_views(chunk.patterns@),
                    decoded_counts(req.data->0@),
                )
                &&& chunk.patterns@.len() == decoded_counts(req.data->0@).len()
                &&& chunk.payload_len == vstd::utf8::encode_utf8(req.data->0@).len()
                &&& chunk.colab_id@ == text::named(text::opt_text(req.colab_id))
                &&& chunk.dump_id@ == text::named(text::opt_text(req.dump_id))
                &&& chunk.start_index == req.start_index
                &&& chunk.path_index == req.path_index
            },
            Err(res) => !acceptable(req) && is_rejection(res),
        },
        received is Ok == (req.data_type@ == "frequency_map"@ && req.data is Some),
        received matches Err(res) ==> res.status@ == "error"@ && text::opt_text(res.message) == Some(
            "Invalid payload"@,
        ) && res.chunk_id is None && res.patterns_added is None,
{
    match accept_data(req) {
        Ok((mut chunk, payload)) => {
            chunk.patterns = decode_patterns(payload.as_str());
            Ok(chunk)
        },
        Err(res) => Err(res),
    }
}

/// The answer to a chunk that was taken in.
pub open spec fn is_acceptance(res: PostDataRes, chunk_id: int, patterns_added: int) -> bool {
    &&& res.status@ == "success"@
    &&& res.message is None
    &&& res.chunk_id is Some && res.chunk_id->0 == chunk_id
    &&& res.patterns_added is Some && res.patterns_added->0 == patterns_added
}

/// Takes in a chunk whose patterns were added to the tally: notes the progress of its batch,
/// counts the chunk, and answers the worker. Says also whether the tasks are to be saved.
pub fn handle_data(
    tasks: &mut TaskState,
    stats: &mut Stats,
    chunk: Chunk,
    now: u64,
) -> (answer: (PostDataRes, bool))
    requires
        old(tasks)@.knows(chunk.dump_id@, chunk.start_index as int) ==> chunk.path_index
            < i32::MAX,
        old(stats)@.has_room(
            chunk.payload_len as int,
            chunk.colab_id@,
            chunk.path_index as int,
        ),
    ensures
        final(tasks)@ == old(tasks)@.progressed(
            chunk.dump_id@,
            chunk.start_index as int,
            chunk.path_index as int,
            now as int,
        ),
        final(stats)@ == old(stats)@.recorded(
            chunk.payload_len as int,
            chunk.colab_id@,
            chunk.path_index as int,
        ),
        is_acceptance(answer.0, old(stats)@.chunks + 1, chunk.patterns@.len() as int),
        answer.0.status@ == "success"@,
        answer.0.message is None,
        answer.0.chunk_id is Some && answer.0.chunk_id->0 == final(stats)@.chunks,
        answer.0.patterns_added is Some && answer.0.patterns_added->0 == chunk.patterns@.len(),
        answer.1 == old(tasks)@.knows(chunk.dump_id@, chunk.start_index as int),
        task_laws::consistent(old(tasks)@) ==> task_laws::consistent(final(tasks)@),
        task_laws::one_batch_each(old(tasks)@) ==> task_laws::one_batch_each(final(tasks)@),
        old(stats)@.adds_up() ==> final(stats)@.adds_up(),
{
    let save = tasks.record_progress(
        chunk.dump_id.as_str(),
        chunk.start_index,
        chunk.path_index,
        now,
    );
    let patterns_added = chunk.patterns.len();
    let chunk_id = stats.record_chunk(chunk.payload_len, chunk.colab_id, chunk.path_index);
    let response = PostDataRes {
        status: "success".to_owned(),
        message: None,
        chunk_id: Some(chunk_id),
        patterns_added: Some(patterns_added),
    };
    (response, save)
}

/// The call is taken in. A call is a request, or nothing where its body could not be read as one.
pub open spec fn is_taken_in(call: Option<PostDataReq>) -> bool {
    call is Some && acceptable(call->0)
}

/// The bytes that a call brings in.
pub open spec fn payload_of(call: Option<PostDataReq>) -> int {
    vstd::utf8::encode_utf8(call->0.data->0@).len() as int
}

/// The worker that a call comes from.
pub open spec fn sender(call: Option<PostDataReq>) -> Seq<char> {
    text::named(text::opt_text(call->0.colab_id))
}

/// How many of the calls are taken in.
pub open spec fn taken_in(calls: Seq<Option<PostDataReq>>) -> nat {
    calls.filter(|call: Option<PostDataReq>| is_taken_in(call)).len()
}

/// How many of the calls are taken in and end a file.
pub open spec fn files_ended(calls: Seq<Option<PostDataReq>>) -> nat {
    calls.filter(|call: Option<PostDataReq>| is_taken_in(call) && call->0.path_index != -1).len()
}

/// How many of the calls are taken in and come from a worker.
pub open spec fn taken_from(calls: Seq<Option<PostDataReq>>, worker: Seq<char>) -> nat {
    calls.filter(|call: Option<PostDataReq>| is_taken_in(call) && sender(call) == worker).len()
}

/// The bytes of all calls that are taken in.
pub open spec fn bytes_of(calls: Seq<Option<PostDataReq>>) -> int
    decreases calls.len(),
{
    if calls.len() == 0 {
        0
    } else {
        bytes_of(calls.drop_last()) + if is_taken_in(calls.last()) {
            payload_of(calls.last())
        } else {
            0
        }
    }
}

/// The counters after the calls, one after the other. A call that is not taken in leaves them.
pub open spec fn counted(s: StatsView, calls: Seq<Option<PostDataReq>>) -> StatsView
    decreases calls.len(),
{
    if calls.len() == 0 {
        s
    } else {
        let before = counted(s, calls.drop_last());
        let call = calls.last();
        if is_taken_in(call) {
            before.recorded(payload_of(call), sender(call), call->0.path_index as int)
        } else {
            before
        }
    }
}

/// The counters can take each call when it comes.
pub open spec fn has_room_for(s: StatsView, calls: Seq<Option<PostDataReq>>) -> bool {
    forall|i: int|
        0 <= i < calls.len() && is_taken_in(#[trigger] calls[i]) ==> counted(s, calls.take(i)).has_room(
            payload_of(calls[i]),
            sender(calls[i]),
            calls[i]->0.path_index as int,
        )
}

proof fn lemma_filter_push(
    calls: Seq<Option<PostDataReq>>,
    test: spec_fn(Option<PostDataReq>) -> bool,
)
    requires
        calls.len() > 0,
    ensures
        calls.filter(test).len() == calls.drop_last().filter(test).len() + if test(calls.last()) {
            1int
        } else {
            0int
        },
{
    reveal(Seq::filter);
}

proof fn lemma_room_before(s: StatsView, calls: Seq<Option<PostDataReq>>)
    requires
        calls.len() > 0,
        has_room_for(s, calls),
    ensures
        has_room_for(s, calls.drop_last()),
        is_taken_in(calls.last()) ==> counted(s, calls.drop_last()).has_room(
            payload_of(calls.last()),
            sender(calls.last()),
            calls.last()->0.path_index as int,
        ),
{
    let before = calls.drop_last();
    let last = calls.len() - 1;
    assert(calls.take(last) =~= before);
    assert(calls[last] == calls.last());
    assert forall|i: int| 0 <= i < before.len() && is_taken_in(#[trigger] before[i]) implies counted(
        s,
        before.take(i),
    ).has_room(payload_of(before[i]), sender(before[i]), before[i]->0.path_index as int) by {
        assert(before[i] == calls[i]);
        assert(before.take(i) =~= calls.take(i));
    }
}

/// Over any course of calls the counters are the sums over the calls that were taken in: their
/// number, their bytes and the files that they ended, in all and for each worker. Calls that were
/// not taken in use up no number. The times, the bytes written and the number of patterns stay.
pub proof fn law_calls_are_counted(s: StatsView, calls: Seq<Option<PostDataReq>>)
    requires
        s.adds_up(),
        has_room_for(s, calls),
    ensures
        ({
            let after = counted(s, calls);
            &&& after.adds_up()
            &&& after.chunks == s.chunks + taken_in(calls)
            &&& after.bytes_received == s.bytes_received + bytes_of(calls)
            &&& after.wet_files == s.wet_files + files_ended(calls)
            &&& forall|worker: Seq<char>| #[trigger]
                stats::count_of(after.per_colab, worker) == stats::count_of(s.per_colab, worker)
                    + taken_from(calls, worker)
            &&& forall|worker: Seq<char>| #[trigger]
                after.active.contains(worker) == (s.active.contains(worker) || taken_from(
                    calls,
                    worker,
                ) > 0)
            &&& after.bytes_written == s.bytes_written
            &&& after.start_time == s.start_time
            &&& after.last_save_time == s.last_save_time
            &&& after.unique_patterns == s.unique_patterns
        }),
    decreases calls.len(),
{
    if calls.len() == 0 {
        reveal(Seq::filter);
    } else {
        let before = calls.drop_last();
        let call = calls.last();
        let mid = counted(s, before);
        let after = counted(s, calls);
        lemma_room_before(s, calls);
        law_calls_are_counted(s, before);
        lemma_filter_push(calls, |call: Option<PostDataReq>| is_taken_in(call));
        lemma_filter_push(
            calls,
            |call: Option<PostDataReq>| is_taken_in(call) && call->0.path_index != -1,
        );
        if is_taken_in(call) {
            let path = call->0.path_index as int;
            stats::law_chunks_add_up(mid, payload_of(call), sender(call), path);
        }
        assert forall|worker: Seq<char>|
            stats::count_of(after.per_colab, worker) == stats::count_of(s.per_colab, worker)
                + taken_from(calls, worker) && after.active.contains(worker) == (s.active.contains(
                worker,
            ) || taken_from(calls, worker) > 0) by {
            lemma_filter_push(
                calls,
                |call: Option<PostDataReq>| is_taken_in(call) && sender(call) == worker,
            );
            if is_taken_in(call) {
                stats::lemma_recorded_for(
                    mid,
                    payload_of(call),
                    sender(call),
                    call->0.path_index as int,
                    worker,
                );
            }
        }
    }
}

/// From the start of the server the n-th call that is taken in is answered with number n, whatever
/// calls were turned away in between; the bytes and files counted then are those of these calls.
pub proof fn law_chunks_are_numbered_in_turn(
    s: StatsView,
    calls: Seq<Option<PostDataReq>>,
    res: PostDataRes,
    patterns_added: int,
)
    requires
        s.adds_up(),
        s.chunks == 0,
        s.bytes_received == 0,
        s.wet_files == 0,
        has_room_for(s, calls),
        calls.len() > 0,
        is_taken_in(calls.last()),
        is_acceptance(res, counted(s, calls.drop_last()).chunks + 1, patterns_added),
    ensures
        res.status@ == "success"@,
        res.chunk_id is Some && res.chunk_id->0 == taken_in(calls),
        counted(s, calls).chunks == taken_in(calls),
        counted(s, calls).bytes_received == bytes_of(calls),
        counted(s, calls).wet_files == files_ended(calls),
        counted(s, calls).bytes_written == s.bytes_written,
        counted(s, calls).start_time == s.start_time,
        counted(s, calls).unique_patterns == s.unique_patterns,
{
    law_calls_are_counted(s, calls);
}

/// A request is taken in where it says that it holds a frequency map and holds something.
pub proof fn law_what_is_acceptable(req: PostDataReq)
    ensures
        acceptable(req) == (req.data_type@ == "frequency_map"@ && req.data is Some),
        is_taken_in(Some(req)) == acceptable(req),
        !is_taken_in(None),
{
}

/// A payload holds the counts of the JSON that its compressed bytes hold; where one step fails it
/// holds what the next makes of nothing, and no counts where there is no JSON object of counts.
pub proof fn law_decoding_steps(
    payload: Seq<char>,
    bytes: Seq<u8>,
    counts: Map<Seq<char>, u32>,
)
    ensures
        outside::base64_bytes(payload) == Some(bytes) && outside::json_counts(
            outside::zstd_text(bytes),
        ) == Some(counts) ==> decoded_counts(payload) == counts,
        outside::base64_bytes(payload) == Some(bytes) && outside::json_counts(
            outside::zstd_text(bytes),
        ) is None ==> decoded_counts(payload) == Map::<Seq<char>, u32>::empty(),
        outside::base64_bytes(payload) is None && outside::json_counts(
            outside::zstd_text(Seq::empty()),
        ) == Some(counts) ==> decoded_counts(payload) == counts,
        outside::base64_bytes(payload) is None && outside::json_counts(
            outside::zstd_text(Seq::empty()),
        ) is None ==> decoded_counts(payload) == Map::<Seq<char>, u32>::empty(),
{
}

/// The calls that are taken in are counted with the bytes of their payload and under the name of
/// their worker, `unknown` where it has none.
pub proof fn law_calls_are_measured(
    a: Seq<Option<PostDataReq>>,
    b: Seq<Option<PostDataReq>>,
    req: PostDataReq,
)
    ensures
        bytes_of(Seq::empty()) == 0,
        bytes_of(a + b) == bytes_of(a) + bytes_of(b),
        bytes_of(seq![None]) == 0,
        !acceptable(req) ==> bytes_of(seq![Some(req)]) == 0,
        acceptable(req) ==> bytes_of(seq![Some(req)]) == vstd::utf8::encode_utf8(
            req.data->0@,
        ).len(),
        req.colab_id is Some ==> sender(Some(req)) == req.colab_id->0@,
        req.colab_id is None ==> sender(Some(req)) == "unknown"@,
    decreases b.len(),
{
    reveal_with_fuel(bytes_of, 2);
    assert(seq![None::<PostDataReq>].drop_last() =~= Seq::empty());
    assert(seq![Some(req)].drop_last() =~= Seq::empty());
    if b.len() == 0 {
        assert(a + b =~= a);
    } else {
        law_calls_are_measured(a, b.drop_last(), req);
        assert((a + b).drop_last() =~= a + b.drop_last());
    }
}

} // verus!
