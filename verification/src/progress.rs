//! Progress: the events of an operation, the lines that they are in a lock file,
//! and how those who wait for the lock follow them.

use serde_json::Value;
use vstd::prelude::*;

use crate::error::{Error, ErrorView};
use crate::json::{
    encode, flag_value, insert, new_object, null_value, number_value, object_value, parse,
    text_value,
};
use crate::path::split_bytes;

verus! {

use crate::json::{entries, is_flat, json, json_bytes, no_entries, parse_json, Json};
use crate::path::{lemma_split_concat, split};
use crate::text::raws;

/// The byte at the end of a line.
pub const LINE_END: u8 = 10;

/// An object with a name of an event.
pub open spec fn named_event(name: Seq<char>) -> Map<Seq<char>, Json> {
    no_entries().insert("event"@, Json::Text(name))
}

/// A size that may be unknown.
pub open spec fn size_json(size: Option<u64>) -> Json {
    match size {
        Some(size) => Json::Number(size as int),
        None => Json::Null,
    }
}

fn event_object(name: &str) -> (object: serde_json::Map<String, Value>)
    ensures
        entries(object) == named_event(name@),
{
    let mut object = new_object();
    insert(&mut object, "event".to_owned(), text_value(name.to_owned()));
    object
}

/// An installation begins.
pub fn install_started(plan_key: &str) -> (event: Value)
    ensures
        json(event) == Json::Object(
            named_event("started"@).insert("plan_key"@, Json::Text(plan_key@)),
        ),
        is_flat(json(event)),
{
    let mut object = event_object("started");
    insert(&mut object, "plan_key".to_owned(), text_value(plan_key.to_owned()));
    object_value(object)
}

/// A download begins.
pub fn download_started(key: &str) -> (event: Value)
    ensures
        json(event) == Json::Object(named_event("started"@).insert("dl_key"@, Json::Text(key@))),
        is_flat(json(event)),
{
    let mut object = event_object("started");
    insert(&mut object, "dl_key".to_owned(), text_value(key.to_owned()));
    object_value(object)
}

/// The files of an installation are being put in place.
pub fn installing() -> (event: Value)
    ensures
        json(event) == Json::Object(named_event("install"@)),
        is_flat(json(event)),
{
    object_value(event_object("install"))
}

/// The event of a download that has come so far.
pub open spec fn download_progress_json(key: Seq<char>, current: u64, total: Option<u64>) -> Json {
    Json::Object(
        named_event("download"@).insert("dl_key"@, Json::Text(key)).insert(
            "current"@,
            Json::Number(current as int),
        ).insert("total"@, size_json(total)),
    )
}

/// A download has come so far.
pub fn download_progress(key: &str, current: u64, total: Option<u64>) -> (event: Value)
    ensures
        json(event) == download_progress_json(key@, current, total),
        is_flat(json(event)),
{
    let mut object = event_object("download");
    insert(&mut object, "dl_key".to_owned(), text_value(key.to_owned()));
    insert(&mut object, "current".to_owned(), number_value(current));
    let size = match total {
        Some(total) => number_value(total),
        None => null_value(),
    };
    insert(&mut object, "total".to_owned(), size);
    object_value(object)
}

/// The event of a download whose bytes have all come.
pub open spec fn downloaded_json(key: Seq<char>, size: u64, digest: Seq<char>) -> Json {
    Json::Object(
        named_event("downloaded"@).insert("dl_key"@, Json::Text(key)).insert(
            "size"@,
            Json::Number(size as int),
        ).insert("digest"@, Json::Text(digest)),
    )
}

/// The bytes of a download have all come.
pub fn downloaded(key: &str, size: u64, digest: &str) -> (event: Value)
    ensures
        json(event) == downloaded_json(key@, size, digest@),
        is_flat(json(event)),
{
    let mut object = event_object("downloaded");
    insert(&mut object, "dl_key".to_owned(), text_value(key.to_owned()));
    insert(&mut object, "size".to_owned(), number_value(size));
    insert(&mut object, "digest".to_owned(), text_value(digest.to_owned()));
    object_value(object)
}

/// The event of an operation that has succeeded.
pub open spec fn completed_json(cached: bool) -> Json {
    Json::Object(named_event("completed"@).insert("cached"@, Json::Bool(cached)))
}

/// An operation has succeeded, with an object that was there before or a new one.
pub fn completed(cached: bool) -> (event: Value)
    ensures
        json(event) == completed_json(cached),
        is_flat(json(event)),
{
    let mut object = event_object("completed");
    insert(&mut object, "cached".to_owned(), flag_value(cached));
    object_value(object)
}

/// The event of an operation that has failed.
pub open spec fn failed_json(message: Seq<char>) -> Json {
    Json::Object(named_event("failed"@).insert("message"@, Json::Text(message)))
}

/// An operation has failed.
pub fn failed(message: &str) -> (event: Value)
    ensures
        json(event) == failed_json(message@),
        is_flat(json(event)),
{
    let mut object = event_object("failed");
    insert(&mut object, "message".to_owned(), text_value(message.to_owned()));
    object_value(object)
}

/// Someone else holds the lock.
pub fn waiting() -> (event: Value)
    ensures
        json(event) == Json::Object(named_event("waiting"@)),
        is_flat(json(event)),
{
    object_value(event_object("waiting"))
}

/// Whether a value is a line of its own once it is written, and comes back from
/// it.
pub open spec fn is_readable(value: Json) -> bool {
    &&& json_bytes(value).len() > 0
    &&& !json_bytes(value).contains(LINE_END)
    &&& parse_json(json_bytes(value)) == Some(value)
}

/// The line that a value is: its JSON and the end of the line.
pub fn event_line(event: &Value) -> (line: Result<Vec<u8>, String>)
    ensures
        match line {
            Ok(line) => {
                &&& line@ == json_bytes(json(*event)).push(LINE_END)
                &&& !json_bytes(json(*event)).contains(LINE_END)
                &&& is_flat(json(*event)) ==> is_readable(json(*event))
            },
            Err(_) => false,
        },
{
    match encode(event) {
        Ok(bytes) => {
            let mut line = bytes;
            line.push(LINE_END);
            Ok(line)
        },
        Err(reason) => Err(reason),
    }
}

/// How many bytes the complete lines at the start of a byte string have.
pub open spec fn complete_length(bytes: Seq<u8>) -> nat
    decreases bytes.len(),
{
    if bytes.len() == 0 {
        0
    } else if bytes.last() == LINE_END {
        bytes.len()
    } else {
        complete_length(bytes.drop_last())
    }
}

/// The events among some lines: those that are JSON, in order.
pub open spec fn line_events(lines: Seq<Seq<u8>>) -> Seq<Json>
    decreases lines.len(),
{
    if lines.len() == 0 {
        Seq::empty()
    } else {
        let before = line_events(lines.drop_last());
        if lines.last().len() > 0 && parse_json(lines.last()) is Some {
            before.push(parse_json(lines.last())->0)
        } else {
            before
        }
    }
}

/// Where reading goes on in a file: where it stopped, or at the start of a file
/// that has become shorter than that.
pub open spec fn follow_from(followed: nat, bytes: Seq<u8>) -> nat {
    if bytes.len() < followed {
        0
    } else {
        followed
    }
}

/// The complete lines of a file that have not been read.
pub open spec fn fresh_lines(followed: nat, bytes: Seq<u8>) -> Seq<u8> {
    let fresh = bytes.skip(follow_from(followed, bytes) as int);
    fresh.take(complete_length(fresh) as int)
}

/// The events in the complete lines of a file that have not been read.
pub open spec fn fresh_events(followed: nat, bytes: Seq<u8>) -> Seq<Json> {
    line_events(split(fresh_lines(followed, bytes), LINE_END))
}

/// Where reading has stopped after that.
pub open spec fn followed_to(followed: nat, bytes: Seq<u8>) -> nat {
    follow_from(followed, bytes) + fresh_lines(followed, bytes).len()
}

/// What a list of JSON values holds.
pub open spec fn json_views(values: Seq<Value>) -> Seq<Json> {
    values.map_values(|value: Value| json(value))
}

/// Follows the events that someone else writes.
#[derive(Debug)]
pub struct Follower {
    followed: u64,
}

impl View for Follower {
    type V = nat;

    /// How many bytes have been read.
    closed spec fn view(&self) -> nat {
        self.followed as nat
    }
}

fn complete_bytes(bytes: &[u8]) -> (length: usize)
    ensures
        length == complete_length(bytes@),
        length <= bytes.len(),
{
    let mut length: usize = bytes.len();
    assert(bytes@.take(length as int) == bytes@);
    while length > 0 && bytes[length - 1] != LINE_END
        invariant
            length <= bytes.len(),
            complete_length(bytes@) == complete_length(bytes@.take(length as int)),
        decreases length,
    {
        assert(bytes@.take(length as int).drop_last() == bytes@.take(length - 1));
        length -= 1;
    }
    assert(length > 0 ==> bytes@.take(length as int).last() == LINE_END);
    length
}

impl Follower {
    /// Has read nothing.
    pub fn new() -> (follower: Follower)
        ensures
            follower@ == 0,
    {
        Follower { followed: 0 }
    }

    /// Reads on in a file and hands out the events of its new complete lines. An
    /// incomplete last line is left for later, and lines that are not JSON are
    /// passed over.
    pub fn poll(&mut self, bytes: &[u8]) -> (events: Vec<Value>)
        ensures
            json_views(events@) == fresh_events(old(self)@, bytes@),
            final(self)@ == followed_to(old(self)@, bytes@),
    {
        if (bytes.len() as u64) < self.followed {
            self.followed = 0;
        }
        let start: usize = self.followed as usize;
        let fresh = vstd::slice::slice_subrange(bytes, start, bytes.len());
        assert(fresh@ =~= bytes@.skip(start as int));
        let complete = complete_bytes(fresh);
        let whole = vstd::slice::slice_subrange(fresh, 0, complete);
        assert(whole@ =~= fresh@.take(complete as int));
        let lines = split_bytes(whole, LINE_END);
        let mut events: Vec<Value> = Vec::new();
        let mut i: usize = 0;
        assert(json_views(events@) =~= line_events(raws(lines@).take(0)));
        while i < lines.len()
            invariant
                i <= lines.len(),
                json_views(events@) == line_events(raws(lines@).take(i as int)),
            decreases lines.len() - i,
        {
            let line = &lines[i];
            let ghost before = json_views(events@);
            proof {
                assert(raws(lines@).take(i + 1).drop_last() == raws(lines@).take(i as int));
                assert(raws(lines@).take(i + 1).last() == line@);
            }
            if line.len() > 0 {
                match parse(line.as_slice()) {
                    Some(event) => {
                        let ghost value = json(event);
                        events.push(event);
                        assert(json_views(events@) =~= before.push(value));
                    },
                    None => {},
                }
            }
            i += 1;
        }
        assert(raws(lines@).take(i as int) == raws(lines@));
        self.followed = self.followed + complete as u64;
        events
    }
}

/// What came of trying to take a lock.
#[derive(Debug)]
pub enum LockOutcome {
    Acquired,
    /// Someone else holds it.
    Busy,
    Failed { reason: String },
}

/// Whether the lock at a path is held now; otherwise it is to be tried again
/// after a while. A failure is final.
pub fn lock_held(path: &[u8], outcome: LockOutcome) -> (result: Result<bool, Error>)
    ensures
        match outcome {
            LockOutcome::Acquired => result == Ok::<bool, Error>(true),
            LockOutcome::Busy => result == Ok::<bool, Error>(false),
            LockOutcome::Failed { reason } => result is Err && result->Err_0@ == (
            ErrorView::AcquireLock { path: path@, reason: reason@ }),
        },
{
    match outcome {
        LockOutcome::Acquired => Ok(true),
        LockOutcome::Busy => Ok(false),
        LockOutcome::Failed { reason } => Err(
            Error::AcquireLock { path: vstd::slice::slice_to_vec(path), reason },
        ),
    }
}

/// What those who follow an operation do after an attempt to take its lock: tell
/// that they wait and try again later, or nothing once it is taken.
pub fn wait_event(path: &[u8], outcome: LockOutcome) -> (result: Result<Option<Value>, Error>)
    ensures
        match outcome {
            LockOutcome::Acquired => result == Ok::<Option<Value>, Error>(None),
            LockOutcome::Busy => result is Ok && result->Ok_0 is Some && json(result->Ok_0->0)
                == Json::Object(named_event("waiting"@)) && is_flat(json(result->Ok_0->0)),
            LockOutcome::Failed { reason } => result is Err && result->Err_0@ == (
            ErrorView::AcquireLock { path: path@, reason: reason@ }),
        },
{
    match lock_held(path, outcome) {
        Ok(true) => Ok(None),
        Ok(false) => Ok(Some(waiting())),
        Err(error) => Err(error),
    }
}

proof fn lemma_line_events_concat(first: Seq<Seq<u8>>, second: Seq<Seq<u8>>)
    ensures
        line_events(first + second) == line_events(first) + line_events(second),
    decreases second.len(),
{
    if second.len() == 0 {
        assert(first + second =~= first);
        assert(line_events(first) + line_events(second) =~= line_events(first));
    } else {
        lemma_line_events_concat(first, second.drop_last());
        assert((first + second).drop_last() =~= first + second.drop_last());
        assert((first + second).last() == second.last());
        assert(line_events(first + second) =~= line_events(first) + line_events(second));
    }
}

/// The events in a byte string, read as lines.
pub open spec fn byte_events(bytes: Seq<u8>) -> Seq<Json> {
    line_events(split(bytes, LINE_END))
}

/// The events of complete lines and of what follows them come one after another.
proof fn lemma_byte_events_concat(first: Seq<u8>, second: Seq<u8>)
    requires
        first.len() == 0 || first.last() == LINE_END,
    ensures
        byte_events(first + second) == byte_events(first) + byte_events(second),
{
    if first.len() == 0 {
        assert(first + second =~= second);
        assert(split(first, LINE_END) =~= seq![Seq::<u8>::empty()]);
        assert(line_events(seq![Seq::<u8>::empty()]) =~= Seq::<Json>::empty()) by {
            reveal_with_fuel(line_events, 2);
        }
        assert(byte_events(first) + byte_events(second) =~= byte_events(second));
    } else {
        let stem = first.drop_last();
        assert(first + second =~= stem.push(LINE_END) + second);
        lemma_split_concat(stem, second, LINE_END);
        lemma_line_events_concat(split(stem, LINE_END), split(second, LINE_END));
        assert(split(first, LINE_END).drop_last() =~= split(stem, LINE_END));
        assert(byte_events(first) == line_events(split(stem, LINE_END)));
    }
}

proof fn lemma_complete_length(bytes: Seq<u8>)
    ensures
        complete_length(bytes) <= bytes.len(),
        complete_length(bytes) > 0 ==> bytes[complete_length(bytes) - 1] == LINE_END,
        forall|i: int| complete_length(bytes) <= i < bytes.len() ==> bytes[i] != LINE_END,
    decreases bytes.len(),
{
    if bytes.len() > 0 && bytes.last() != LINE_END {
        lemma_complete_length(bytes.drop_last());
        assert forall|i: int| complete_length(bytes) <= i < bytes.len() implies bytes[i]
            != LINE_END by {
            if i < bytes.len() - 1 {
                assert(bytes.drop_last()[i] == bytes[i]);
            }
        }
    }
}

/// The complete lines end at one place only.
proof fn lemma_complete_length_unique(bytes: Seq<u8>, length: int)
    requires
        0 <= length <= bytes.len(),
        length > 0 ==> bytes[length - 1] == LINE_END,
        forall|i: int| length <= i < bytes.len() ==> bytes[i] != LINE_END,
    ensures
        complete_length(bytes) == length,
{
    lemma_complete_length(bytes);
    let other = complete_length(bytes) as int;
    if other < length {
        assert(bytes[length - 1] != LINE_END);
    } else if length < other {
        assert(bytes[other - 1] != LINE_END);
    }
}

/// Following a file that grows loses nothing and repeats nothing: reading it at
/// one time and again when it has grown gives the same events, in the same order,
/// as reading it once at the later time.
pub proof fn following_in_turns_loses_nothing(followed: nat, earlier: Seq<u8>, later: Seq<u8>)
    requires
        followed <= earlier.len(),
        earlier.is_prefix_of(later),
    ensures
        fresh_events(followed, later) == fresh_events(followed, earlier) + fresh_events(
            followed_to(followed, earlier),
            later,
        ),
        followed_to(followed, later) == followed_to(followed_to(followed, earlier), later),
{
    let from = followed as int;
    let old_bytes = earlier.skip(from);
    let all_bytes = later.skip(from);
    let first = complete_length(old_bytes) as int;
    let whole = complete_length(all_bytes) as int;
    lemma_complete_length(old_bytes);
    lemma_complete_length(all_bytes);
    assert forall|i: int| 0 <= i < old_bytes.len() implies old_bytes[i] == all_bytes[i] by {
        assert(earlier[i + from] == later[i + from]);
    }
    assert(first <= whole) by {
        if whole < first {
            assert(all_bytes[first - 1] != LINE_END);
        }
    }
    let rest = later.skip(from + first);
    assert(rest =~= all_bytes.skip(first));
    assert forall|i: int| whole - first <= i < rest.len() implies rest[i] != LINE_END by {
        assert(rest[i] == all_bytes[i + first]);
    }
    if whole > first {
        assert(rest[whole - first - 1] == all_bytes[whole - 1]);
    }
    lemma_complete_length_unique(rest, whole - first);
    let head = all_bytes.take(first);
    assert(head =~= old_bytes.take(first));
    let tail = rest.take(whole - first);
    assert(all_bytes.take(whole) =~= head + tail);
    lemma_byte_events_concat(head, tail);
}

/// The lines of some values, one after another.
pub open spec fn written(values: Seq<Json>) -> Seq<u8>
    decreases values.len(),
{
    if values.len() == 0 {
        Seq::empty()
    } else {
        written(values.drop_last()) + json_bytes(values.last()).push(LINE_END)
    }
}

proof fn lemma_written(values: Seq<Json>)
    requires
        forall|i: int| 0 <= i < values.len() ==> is_readable(#[trigger] values[i]),
    ensures
        byte_events(written(values)) == values,
        written(values).len() > 0 ==> written(values).last() == LINE_END,
    decreases values.len(),
{
    if values.len() == 0 {
        lemma_byte_events_concat(Seq::empty(), Seq::empty());
        assert(Seq::<u8>::empty() + Seq::<u8>::empty() =~= Seq::<u8>::empty());
        assert(split(Seq::<u8>::empty(), LINE_END) =~= seq![Seq::<u8>::empty()]);
        assert(line_events(seq![Seq::<u8>::empty()]) =~= Seq::<Json>::empty()) by {
            reveal_with_fuel(line_events, 2);
        }
        assert(byte_events(written(values)) =~= values);
    } else {
        let fewer = values.drop_last();
        let value = values.last();
        let text = json_bytes(value);
        assert(is_readable(values[values.len() - 1]));
        assert forall|i: int| 0 <= i < fewer.len() implies is_readable(#[trigger] fewer[i]) by {
            assert(is_readable(values[i]));
        }
        lemma_written(fewer);
        lemma_byte_events_concat(written(fewer), text.push(LINE_END));
        let pieces = seq![text];
        assert(pieces[0] == text);
        crate::path::join_undone_by_split(pieces, LINE_END);
        assert(split(text, LINE_END) == pieces);
        assert(text.push(LINE_END).drop_last() =~= text);
        assert(split(text.push(LINE_END), LINE_END) == pieces.push(Seq::empty()));
        assert(pieces.push(Seq::<u8>::empty()).drop_last() =~= pieces);
        assert(pieces.drop_last() =~= Seq::<Seq<u8>>::empty());
        assert(line_events(pieces) =~= seq![value]) by {
            reveal_with_fuel(line_events, 2);
        }
        assert(byte_events(text.push(LINE_END)) =~= seq![value]);
        assert(fewer + seq![value] =~= values);
    }
}

/// Whoever follows a file from its start reads the events that were written to
/// it, all of them and in order, and nothing of an incomplete line behind them.
pub proof fn written_events_are_read_back(values: Seq<Json>, incomplete: Seq<u8>)
    requires
        forall|i: int| 0 <= i < values.len() ==> is_readable(#[trigger] values[i]),
        !incomplete.contains(LINE_END),
    ensures
        fresh_events(0, written(values) + incomplete) == values,
        followed_to(0, written(values) + incomplete) == written(values).len(),
{
    let lines = written(values);
    let bytes = lines + incomplete;
    lemma_written(values);
    assert(bytes.skip(0) =~= bytes);
    assert forall|i: int| lines.len() <= i < bytes.len() implies bytes[i] != LINE_END by {
        assert(bytes[i] == incomplete[i - lines.len()]);
    }
    lemma_complete_length_unique(bytes, lines.len() as int);
    assert(bytes.take(lines.len() as int) =~= lines);
}

/// What the events of an operation say: each has its name, and the fields that belong to
/// it, and nothing else.
pub proof fn events_have_their_fields(
    key: Seq<char>,
    current: u64,
    total: Option<u64>,
    digest: Seq<char>,
    cached: bool,
    message: Seq<char>,
)
    ensures
        download_progress_json(key, current, total) == Json::Object(
            map!["event"@ => Json::Text("download"@), "dl_key"@ => Json::Text(key),
            "current"@ => Json::Number(current as int), "total"@ => (match total {
                Some(total) => Json::Number(total as int),
                None => Json::Null,
            })],
        ),
        downloaded_json(key, current, digest) == Json::Object(
            map!["event"@ => Json::Text("downloaded"@), "dl_key"@ => Json::Text(key),
            "size"@ => Json::Number(current as int), "digest"@ => Json::Text(digest)],
        ),
        completed_json(cached) == Json::Object(
            map!["event"@ => Json::Text("completed"@), "cached"@ => Json::Bool(cached)],
        ),
        failed_json(message) == Json::Object(
            map!["event"@ => Json::Text("failed"@), "message"@ => Json::Text(message)],
        ),
        Json::Object(named_event(message)) == Json::Object(map!["event"@ => Json::Text(message)]),
{
}

proof fn lemma_flat_lines(lines: Seq<Seq<u8>>)
    ensures
        lines.map_values(|line: Seq<u8>| line.push(10u8)).flatten() == crate::path::join_pieces(
            lines.push(Seq::empty()),
            LINE_END,
        ),
    decreases lines.len(),
{
    let ended = lines.map_values(|line: Seq<u8>| line.push(10u8));
    let nothing = Seq::<u8>::empty();
    if lines.len() == 0 {
        assert(lines.push(nothing) =~= seq![nothing]);
        assert(ended.flatten() =~= nothing);
    } else {
        let fewer = lines.drop_last();
        let last = lines.last();
        lemma_flat_lines(fewer);
        let before = fewer.map_values(|line: Seq<u8>| line.push(10u8));
        assert(ended =~= before.push(last.push(10u8)));
        before.lemma_flatten_push(last.push(10u8));
        assert(lines.push(nothing).drop_last() =~= lines);
        assert(fewer.push(nothing).drop_last() =~= fewer);
        let joined = crate::path::join_pieces(lines, LINE_END);
        if fewer.len() > 0 {
            assert(joined =~= before.flatten() + last);
        } else {
            assert(fewer.push(nothing) =~= seq![nothing]);
            assert(before.flatten() =~= nothing);
            assert(joined =~= before.flatten() + last);
        }
        assert(joined.push(LINE_END) + nothing =~= before.flatten() + last.push(10u8));
    }
}

proof fn lemma_line_events_filter(lines: Seq<Seq<u8>>)
    ensures
        line_events(lines) == lines.filter(
            |line: Seq<u8>| line.len() > 0 && parse_json(line) is Some,
        ).map_values(|line: Seq<u8>| parse_json(line)->0),
    decreases lines.len(),
{
    reveal(Seq::filter);
    let told = |line: Seq<u8>| line.len() > 0 && parse_json(line) is Some;
    let event = |line: Seq<u8>| parse_json(line)->0;
    if lines.len() > 0 {
        let fewer = lines.drop_last();
        lemma_line_events_filter(fewer);
        assert(line_events(fewer) == fewer.filter(told).map_values(event));
        if told(lines.last()) {
            assert(fewer.filter(told).push(lines.last()).map_values(event) =~= fewer.filter(
                told,
            ).map_values(event).push(event(lines.last())));
        }
    } else {
        assert(line_events(lines) =~= lines.filter(told).map_values(event));
    }
}

/// Reading on in a file hands out the events of the complete lines behind what was read,
/// in order: of all lines that are JSON, and of no others. An incomplete line is left for
/// later.
pub proof fn complete_lines_are_handed_out(
    followed: nat,
    bytes: Seq<u8>,
    lines: Seq<Seq<u8>>,
    incomplete: Seq<u8>,
)
    requires
        followed <= bytes.len(),
        forall|i: int| 0 <= i < lines.len() ==> !(#[trigger] lines[i]).contains(10u8),
        !incomplete.contains(10u8),
        bytes.skip(followed as int) == lines.map_values(
            |line: Seq<u8>| line.push(10u8),
        ).flatten() + incomplete,
    ensures
        fresh_events(followed, bytes) == lines.filter(
            |line: Seq<u8>| line.len() > 0 && parse_json(line) is Some,
        ).map_values(|line: Seq<u8>| parse_json(line)->0),
        followed_to(followed, bytes) == bytes.len() - incomplete.len(),
{
    let nothing = Seq::<u8>::empty();
    let fresh = bytes.skip(followed as int);
    let whole = lines.map_values(|line: Seq<u8>| line.push(10u8)).flatten();
    let pieces = lines.push(nothing);
    lemma_flat_lines(lines);
    assert forall|i: int| 0 <= i < pieces.len() implies !(#[trigger] pieces[i]).contains(
        LINE_END,
    ) by {
        if i < lines.len() {
            assert(!lines[i].contains(10u8));
        }
    }
    crate::path::join_undone_by_split(pieces, LINE_END);
    assert(pieces.drop_last() =~= lines);
    assert forall|i: int| whole.len() <= i < fresh.len() implies fresh[i] != LINE_END by {
        assert(fresh[i] == incomplete[i - whole.len()]);
    }
    if whole.len() > 0 {
        assert(lines.len() > 0) by {
            if lines.len() == 0 {
                assert(pieces =~= seq![nothing]);
            }
        }
        let joined = crate::path::join_pieces(lines, LINE_END);
        assert(whole == joined.push(LINE_END) + nothing);
        assert(fresh[whole.len() - 1] == LINE_END);
    }
    lemma_complete_length_unique(fresh, whole.len() as int);
    assert(fresh.take(whole.len() as int) =~= whole);
    lemma_line_events_filter(lines);
    assert(line_events(pieces) == line_events(lines));
}

/// A file that has become shorter than what was read is read from its start.
pub proof fn shortened_files_are_read_anew(followed: nat, bytes: Seq<u8>)
    requires
        bytes.len() < followed,
    ensures
        fresh_events(followed, bytes) == fresh_events(0, bytes),
        followed_to(followed, bytes) == followed_to(0, bytes),
{
}

/// The mathematical form of a list of values has what each of them holds, in their places.
pub proof fn values_keep_their_order(values: Seq<Value>, index: int)
    ensures
        json_views(values).len() == values.len(),
        0 <= index < values.len() ==> json_views(values)[index] == json(values[index]),
{
}

} // verus!
