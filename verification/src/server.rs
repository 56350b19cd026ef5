//! The service: which requests are taken, what is answered, and when it ends.

use serde_json::Value;
use vstd::prelude::*;

use crate::error::{Error, ErrorView};
use crate::json::{
    as_object, as_text, clone_object, contains_key, extend, get, insert, new_object, null_value,
    object_value, parse, remove, text_value,
};
use crate::text::{contains_text, lossy};

verus! {

use crate::error::error_message;
use crate::json::{entries, is_flat, json, no_entries, parse_json, text_field, Json};
use crate::text::{lemma_push_to_set, lossy_text, optional_text, texts};

/// How a service ends.
#[derive(Debug, Clone, Copy, PartialEq, Eq, Structural)]
pub enum ServeOutcome {
    /// All that was asked for is answered.
    Complete,
    /// Something was read that is no request.
    ProtocolError,
}

/// What a line of the input asks for.
#[derive(Debug)]
pub struct InstallRequest {
    pub id: String,
    pub plan_file: Vec<u8>,
}

/// An event of a type for a request, or for none.
pub open spec fn typed_event(id: Option<Seq<char>>, name: Seq<char>) -> Map<Seq<char>, Json> {
    no_entries().insert(
        "id"@,
        match id {
            Some(id) => Json::Text(id),
            None => Json::Null,
        },
    ).insert("type"@, Json::Text(name))
}

/// What is said of a request that failed, or of a line that is no request.
pub open spec fn error_json(id: Option<Seq<char>>, message: Seq<char>) -> Json {
    Json::Object(typed_event(id, "error"@).insert("message"@, Json::Text(message)))
}

/// What is said of a request that succeeded.
pub open spec fn result_json(id: Seq<char>, root: Seq<char>) -> Json {
    Json::Object(typed_event(Some(id), "result"@).insert("root"@, Json::Text(root)))
}

fn typed_object(id: Option<String>, name: &str) -> (object: serde_json::Map<String, Value>)
    ensures
        entries(object) == typed_event(optional_text(id), name@),
{
    let mut object = new_object();
    let id = match id {
        Some(id) => text_value(id),
        None => null_value(),
    };
    insert(&mut object, "id".to_owned(), id);
    insert(&mut object, "type".to_owned(), text_value(name.to_owned()));
    object
}

/// Says that a request failed, or that a line is no request.
pub fn error_event(id: Option<String>, message: &str) -> (event: Value)
    ensures
        json(event) == error_json(optional_text(id), message@),
        is_flat(json(event)),
{
    let mut object = typed_object(id, "error");
    insert(&mut object, "message".to_owned(), text_value(message.to_owned()));
    object_value(object)
}

/// The last event of a request.
pub open spec fn terminal_json(id: Seq<char>, result: Result<Vec<u8>, Error>) -> Json {
    match result {
        Ok(root) => result_json(id, lossy_text(root@)),
        Err(error) => error_json(Some(id), error_message(error@)),
    }
}

/// The last event of a request: where the plan is installed, or what went wrong.
pub fn terminal_event(id: &str, result: &Result<Vec<u8>, Error>) -> (event: Value)
    ensures
        is_flat(json(event)),
        json(event) == terminal_json(id@, *result),
{
    match result {
        Ok(root) => {
            let mut object = typed_object(Some(id.to_owned()), "result");
            insert(&mut object, "root".to_owned(), text_value(lossy(root.as_slice())));
            object_value(object)
        },
        Err(error) => error_event(Some(id.to_owned()), error.message().as_str()),
    }
}

/// The id in a line that is no request, where it can be told.
pub open spec fn recovered_id(value: Option<Json>) -> Option<Seq<char>> {
    match value {
        Some(value) => text_field(value, "id"@),
        None => None,
    }
}

/// The id in what a line holds, where it is JSON with such a text.
pub fn id_of(value: &Option<Value>) -> (id: Option<String>)
    ensures
        optional_text(id) == recovered_id(
            match *value {
                Some(value) => Some(json(value)),
                None => None,
            },
        ),
{
    match value {
        None => None,
        Some(value) => {
            match get(value, "id") {
                None => None,
                Some(field) => {
                    match as_text(field) {
                        None => None,
                        Some(text) => Some(text.to_owned()),
                    }
                },
            }
        },
    }
}

/// The id in a line that is no request, where it can be told.
pub fn recover_id(line: &[u8]) -> (id: Option<String>)
    ensures
        optional_text(id) == recovered_id(parse_json(line@)),
{
    id_of(&parse(line))
}

/// The fields of an event.
pub open spec fn event_fields(event: Json) -> Map<Seq<char>, Json> {
    match event {
        Json::Object(fields) => fields,
        _ => no_entries(),
    }
}

/// What an operation is at when it tells an event.
pub open spec fn event_stage(event: Json) -> Seq<char> {
    if text_field(event, "event"@) == Some("waiting"@) {
        "waiting"@
    } else if event_fields(event).contains_key("dl_key"@) {
        "download"@
    } else {
        "install"@
    }
}

/// The progress of a request: its id, what it is at, and the fields of the event
/// but for its name.
pub open spec fn progress_json(id: Seq<char>, event: Json) -> Json {
    Json::Object(
        typed_event(Some(id), "progress"@).insert(
            "stage"@,
            Json::Text(event_stage(event)),
        ).union_prefer_right(event_fields(event).remove("event"@)),
    )
}

/// Tells the progress of a request.
pub fn progress_event(id: &str, event: &Value) -> (progress: Value)
    ensures
        json(progress) == progress_json(id@, json(*event)),
        is_flat(json(*event)) ==> is_flat(json(progress)),
{
    let mut output = typed_object(Some(id.to_owned()), "progress");
    let mut fields = match as_object(event) {
        Some(object) => clone_object(object),
        None => new_object(),
    };
    let ghost whole = entries(fields);
    assert(whole == event_fields(json(*event)));
    let name = remove(&mut fields, "event");
    let is_waiting = match &name {
        Some(value) => {
            match as_text(value) {
                Some(text) => text.to_owned() == "waiting".to_owned(),
                None => false,
            }
        },
        None => false,
    };
    let stage = if is_waiting {
        "waiting"
    } else if contains_key(&fields, "dl_key") {
        "download"
    } else {
        "install"
    };
    proof {
        reveal_strlit("event");
        reveal_strlit("dl_key");
        assert("event"@.len() != "dl_key"@.len());
    }
    insert(&mut output, "stage".to_owned(), text_value(stage.to_owned()));
    extend(&mut output, fields);
    object_value(output)
}

/// Progress of a request carries its id and its stage, whatever an operation tells
/// that does not speak of these itself.
pub proof fn progress_carries_its_request(id: Seq<char>, event: Json)
    requires
        !event_fields(event).contains_key("id"@),
        !event_fields(event).contains_key("type"@),
        !event_fields(event).contains_key("stage"@),
    ensures
        text_field(progress_json(id, event), "id"@) == Some(id),
        text_field(progress_json(id, event), "type"@) == Some("progress"@),
        text_field(progress_json(id, event), "stage"@) == Some(event_stage(event)),
        forall|name: Seq<char>|
            event_fields(event).contains_key(name) && name != "event"@ ==> event_fields(
                progress_json(id, event),
            ).contains_key(name) && #[trigger] event_fields(progress_json(id, event))[name]
                == event_fields(event)[name],
{
    reveal_strlit("id");
    reveal_strlit("type");
    reveal_strlit("stage");
    assert("id"@.len() == 2 && "type"@.len() == 4 && "stage"@.len() == 5);
}

/// Whether a byte is ASCII white space.
pub open spec fn is_blank_byte(byte: u8) -> bool {
    byte == 32 || byte == 9 || byte == 10 || byte == 12 || byte == 13
}

/// Whether there is nothing on a line.
pub open spec fn is_blank(line: Seq<u8>) -> bool {
    forall|i: int| 0 <= i < line.len() ==> is_blank_byte(#[trigger] line[i])
}

/// Whether there is nothing on a line.
pub fn is_blank_line(line: &[u8]) -> (blank: bool)
    ensures
        blank == is_blank(line@),
{
    let mut i: usize = 0;
    while i < line.len()
        invariant
            i <= line.len(),
            forall|k: int| 0 <= k < i ==> is_blank_byte(#[trigger] line@[k]),
        decreases line.len() - i,
    {
        let byte: u8 = line[i];
        if byte != 32 && byte != 9 && byte != 10 && byte != 12 && byte != 13 {
            assert(!is_blank_byte(line@[i as int]));
            return false;
        }
        i += 1;
    }
    true
}

/// What comes to a service.
#[derive(Debug)]
pub enum Input {
    /// Nothing can be written any more.
    WriterStopped,
    /// The input cannot be read.
    ReadFailed { reason: String },
    /// The input has ended.
    End,
    /// A line, and what it asks for or why it is no request.
    Line { bytes: Vec<u8>, request: Result<InstallRequest, String> },
}

/// What a service does about it.
#[derive(Debug)]
pub enum Action {
    /// Nothing.
    Skip,
    /// Tells an event, and then whether that was possible.
    Report { event: Value },
    /// Tells an event, if possible, and reads no more.
    Abandon { event: Value },
    /// Carries out a request.
    Start { request: InstallRequest },
    /// Reads no more.
    Stop,
}

/// Where a service tells something.
#[derive(Debug, Clone, Copy, PartialEq, Eq, Structural)]
pub enum Output {
    /// The standard output.
    Answers,
    /// The standard error.
    Events,
}

/// A service that is running.
#[derive(Debug)]
pub struct Session {
    events_to_stderr: bool,
    active: Vec<String>,
    reading: bool,
    reporting: bool,
    output_failed: bool,
    protocol_failed: bool,
}

/// The mathematical form of [`Session`].
#[verifier::ext_equal]
pub struct SessionView {
    /// Whether events are told beside the answers; only answers are told
    /// otherwise.
    pub events_to_stderr: bool,
    /// The ids of the requests that are not answered.
    pub active: Set<Seq<char>>,
    /// Whether more input is read.
    pub reading: bool,
    /// Whether an event is being told.
    pub reporting: bool,
    /// Whether an event or an answer could not be told.
    pub output_failed: bool,
    /// Whether the service ends for something that is no request.
    pub protocol_failed: bool,
}

impl View for Session {
    type V = SessionView;

    closed spec fn view(&self) -> SessionView {
        SessionView {
            events_to_stderr: self.events_to_stderr,
            active: texts(self.active@).to_set(),
            reading: self.reading,
            reporting: self.reporting,
            output_failed: self.output_failed,
            protocol_failed: self.protocol_failed,
        }
    }
}

/// Why a line is not taken: the id and the message of the event that tells it.
pub open spec fn line_error(
    active: Set<Seq<char>>,
    bytes: Seq<u8>,
    request: Result<InstallRequest, String>,
) -> Option<(Option<Seq<char>>, Seq<char>)> {
    match request {
        Err(reason) => Some((recovered_id(parse_json(bytes)), reason@)),
        Ok(request) => if request.id@.len() == 0 {
            Some((Some(request.id@), "request id must not be empty"@))
        } else if active.contains(request.id@) {
            Some((Some(request.id@), "request id is already in flight"@))
        } else {
            None
        },
    }
}

/// The service after a line.
pub open spec fn after_line(
    session: SessionView,
    bytes: Seq<u8>,
    request: Result<InstallRequest, String>,
) -> SessionView {
    if is_blank(bytes) {
        session
    } else if line_error(session.active, bytes, request) is Some {
        SessionView { reporting: true, ..session }
    } else {
        SessionView { active: session.active.insert(request->Ok_0.id@), ..session }
    }
}

/// The service after an event was told, or could not be told.
pub open spec fn after_report(session: SessionView, delivered: bool) -> SessionView {
    if !delivered {
        SessionView { reporting: false, reading: false, output_failed: true, ..session }
    } else if session.events_to_stderr {
        SessionView { reporting: false, ..session }
    } else {
        SessionView { reporting: false, reading: false, protocol_failed: true, ..session }
    }
}

/// The service after nothing can be written any more.
pub open spec fn after_writer_stopped(session: SessionView) -> SessionView {
    SessionView { reading: false, output_failed: true, ..session }
}

/// How a service ends where all could be told.
pub open spec fn service_outcome(session: SessionView) -> ServeOutcome {
    if session.protocol_failed {
        ServeOutcome::ProtocolError
    } else {
        ServeOutcome::Complete
    }
}

/// What a service comes to, given why an output could not be written, where that is
/// so.
pub open spec fn service_result(session: SessionView, written: Result<(), String>) -> Result<
    ServeOutcome,
    ErrorView,
> {
    match written {
        Err(reason) => Err(ErrorView::Failed { reason: reason@ }),
        Ok(_) => if session.output_failed {
            Err(ErrorView::OutputClosed)
        } else {
            Ok(service_outcome(session))
        },
    }
}

/// Where the last event of a request is told: its result or its error.
pub open spec fn answer_output(session: SessionView) -> Output {
    Output::Answers
}

/// Where it is told that a line is no request, or that none can be read.
pub open spec fn diagnostic_output(session: SessionView) -> Output {
    if session.events_to_stderr {
        Output::Events
    } else {
        Output::Answers
    }
}

/// Where the progress of a request is told, if it is.
pub open spec fn progress_output(session: SessionView) -> Option<Output> {
    if session.events_to_stderr {
        Some(Output::Events)
    } else {
        None
    }
}

/// The service after a request was answered.
pub open spec fn after_answer(session: SessionView, id: Seq<char>) -> SessionView {
    SessionView { active: session.active.remove(id), ..session }
}

impl Session {
    /// No id is there twice.
    pub closed spec fn well_formed(&self) -> bool {
        texts(self.active@).no_duplicates()
    }

    /// A service that has read nothing.
    pub fn new(events_to_stderr: bool) -> (session: Session)
        ensures
            session.well_formed(),
            session@ == (SessionView {
                events_to_stderr,
                active: Set::empty(),
                reading: true,
                reporting: false,
                output_failed: false,
                protocol_failed: false,
            }),
    {
        let session = Session {
            events_to_stderr,
            active: Vec::new(),
            reading: true,
            reporting: false,
            output_failed: false,
            protocol_failed: false,
        };
        assert(session@.active =~= Set::empty());
        session
    }

    /// Where the last event of a request is told.
    pub fn answers(&self) -> (output: Output)
        ensures
            output == answer_output(self@),
    {
        Output::Answers
    }

    /// Where it is told that a line is no request, or that none can be read.
    pub fn diagnostics(&self) -> (output: Output)
        ensures
            output == diagnostic_output(self@),
            output == (if self@.events_to_stderr {
                Output::Events
            } else {
                Output::Answers
            }),
    {
        if self.events_to_stderr {
            Output::Events
        } else {
            Output::Answers
        }
    }

    /// Where the progress of a request is told, if it is.
    pub fn progress(&self) -> (output: Option<Output>)
        ensures
            output == progress_output(self@),
    {
        if self.events_to_stderr {
            Some(Output::Events)
        } else {
            None
        }
    }

    /// Whether more input is read.
    pub fn is_reading(&self) -> (reading: bool)
        ensures
            reading == self@.reading,
    {
        self.reading
    }

    /// Whether the requests that are not answered are given up.
    pub fn gives_up(&self) -> (given_up: bool)
        ensures
            given_up == (self@.output_failed || self@.protocol_failed),
    {
        self.output_failed || self.protocol_failed
    }

    /// How the service ends where all could be told.
    pub fn outcome(&self) -> (outcome: ServeOutcome)
        ensures
            outcome == service_outcome(self@),
    {
        if self.protocol_failed {
            ServeOutcome::ProtocolError
        } else {
            ServeOutcome::Complete
        }
    }

    /// Whether something could not be told.
    pub fn failed(&self) -> (failed: bool)
        ensures
            failed == self@.output_failed,
    {
        self.output_failed
    }

    /// What the service comes to once all that can be told is told, given why an
    /// output could not be written, where that is so. A service that could not tell
    /// something has failed.
    pub fn finish(&self, written: Result<(), String>) -> (result: Result<ServeOutcome, Error>)
        ensures
            match result {
                Ok(outcome) => service_result(self@, written) == Ok::<ServeOutcome, ErrorView>(
                    outcome,
                ),
                Err(error) => service_result(self@, written) == Err::<ServeOutcome, ErrorView>(
                    error@,
                ),
            },
    {
        match written {
            Err(reason) => Err(Error::Failed { reason }),
            Ok(()) => {
                if self.failed() {
                    Err(Error::OutputClosed)
                } else {
                    Ok(self.outcome())
                }
            },
        }
    }

    /// Takes in what comes, and tells what is to be done about it.
    pub fn receive(&mut self, input: Input) -> (action: Action)
        requires
            old(self).well_formed(),
            old(self)@.reading,
            !old(self)@.reporting,
        ensures
            final(self).well_formed(),
            match input {
                Input::WriterStopped => action is Stop && final(self)@ == after_writer_stopped(
                    old(self)@,
                ),
                Input::ReadFailed { reason } => action is Abandon && json(action->Abandon_event)
                    == error_json(None, reason@) && is_flat(json(action->Abandon_event)) && final(
                    self)@ == (SessionView {
                    reading: false,
                    protocol_failed: true,
                    ..old(self)@
                }),
                Input::End => action is Stop && final(self)@ == (SessionView {
                    reading: false,
                    ..old(self)@
                }),
                Input::Line { bytes, request } => {
                    &&& final(self)@ == after_line(old(self)@, bytes@, request)
                    &&& if is_blank(bytes@) {
                        action is Skip
                    } else {
                        match line_error(old(self)@.active, bytes@, request) {
                            Some((id, message)) => action is Report && json(action->Report_event)
                                == error_json(id, message) && is_flat(json(action->Report_event)),
                            None => action == (Action::Start { request: request->Ok_0 }),
                        }
                    }
                },
            },
    {
        match input {
            Input::WriterStopped => {
                self.reading = false;
                self.output_failed = true;
                Action::Stop
            },
            Input::ReadFailed { reason } => {
                self.reading = false;
                self.protocol_failed = true;
                Action::Abandon { event: error_event(None, reason.as_str()) }
            },
            Input::End => {
                self.reading = false;
                Action::Stop
            },
            Input::Line { bytes, request } => {
                if is_blank_line(bytes.as_slice()) {
                    return Action::Skip;
                }
                match request {
                    Err(reason) => {
                        self.reporting = true;
                        let id = recover_id(bytes.as_slice());
                        Action::Report { event: error_event(id, reason.as_str()) }
                    },
                    Ok(request) => {
                        if request.id.as_str().is_empty() {
                            self.reporting = true;
                            let id = Some(request.id.clone());
                            return Action::Report {
                                event: error_event(id, "request id must not be empty"),
                            };
                        }
                        let in_flight = contains_text(self.active.as_slice(), &request.id);
                        assert(in_flight == self@.active.contains(request.id@));
                        if in_flight {
                            self.reporting = true;
                            let id = Some(request.id.clone());
                            return Action::Report {
                                event: error_event(id, "request id is already in flight"),
                            };
                        }
                        let ghost before = texts(self.active@);
                        self.active.push(request.id.clone());
                        proof {
                            assert(texts(self.active@) =~= before.push(request.id@));
                            lemma_push_to_set(before, request.id@);
                        }
                        Action::Start { request }
                    },
                }
            },
        }
    }

    /// Takes in whether an event was told. A line that is no request ends the
    /// service, unless events are told beside the answers.
    pub fn reported(&mut self, delivered: bool)
        requires
            old(self).well_formed(),
            old(self)@.reporting,
        ensures
            final(self).well_formed(),
            final(self)@ == after_report(old(self)@, delivered),
    {
        self.reporting = false;
        if !delivered {
            self.output_failed = true;
            self.reading = false;
        } else if !self.events_to_stderr {
            self.protocol_failed = true;
            self.reading = false;
        }
    }

    /// Answers a request: its id is free again, and its last event is told.
    pub fn answer(&mut self, id: &str, result: &Result<Vec<u8>, Error>) -> (event: Value)
        requires
            old(self).well_formed(),
        ensures
            final(self).well_formed(),
            final(self)@ == after_answer(old(self)@, id@),
            json(event) == terminal_json(id@, *result),
            is_flat(json(event)),
    {
        self.release(id);
        terminal_event(id, result)
    }

    /// Makes an id free again.
    fn release(&mut self, id: &str)
        requires
            old(self).well_formed(),
        ensures
            final(self).well_formed(),
            final(self)@ == after_answer(old(self)@, id@),
    {
        let gone = id.to_owned();
        let ghost all = texts(self.active@);
        let mut kept: Vec<String> = Vec::new();
        let mut i: usize = 0;
        assert(texts(kept@).to_set() =~= all.take(0).to_set().remove(id@));
        while i < self.active.len()
            invariant
                i <= self.active.len(),
                gone@ == id@,
                all == texts(self.active@),
                all.no_duplicates(),
                texts(kept@).no_duplicates(),
                texts(kept@).to_set() == all.take(i as int).to_set().remove(id@),
            decreases self.active.len() - i,
        {
            let ghost before = texts(kept@);
            let ghost seen = all.take(i as int);
            proof {
                assert(all.take(i + 1) =~= seen.push(all[i as int]));
                lemma_push_to_set(seen, all[i as int]);
                lemma_push_to_set(before, all[i as int]);
                assert(!seen.contains(all[i as int]));
                assert(before.contains(all[i as int]) == before.to_set().contains(all[i as int]));
                assert(seen.contains(all[i as int]) == seen.to_set().contains(all[i as int]));
            }
            if self.active[i] != gone {
                kept.push(self.active[i].clone());
                assert(texts(kept@) =~= before.push(all[i as int]));
            }
            assert(texts(kept@).to_set() =~= all.take(i + 1).to_set().remove(id@));
            i += 1;
        }
        assert(all.take(i as int) == all);
        self.active = kept;
    }
}

/// A request with the id of one that is not answered is refused, and the first one
/// goes on.
pub proof fn duplicate_leaves_the_first_alone(
    session: SessionView,
    bytes: Seq<u8>,
    request: InstallRequest,
)
    requires
        session.active.contains(request.id@),
    ensures
        line_error(session.active, bytes, Ok(request)) is Some,
        after_line(session, bytes, Ok(request)).active == session.active,
{
}

/// An id can be used again once its request is answered.
pub proof fn answered_id_is_free_again(
    session: SessionView,
    bytes: Seq<u8>,
    request: InstallRequest,
)
    requires
        request.id@.len() > 0,
        !is_blank(bytes),
    ensures
        ({
            let free = after_answer(session, request.id@);
            &&& line_error(free.active, bytes, Ok(request)) is None
            &&& after_line(free, bytes, Ok(request)).active.contains(request.id@)
            &&& after_answer(after_line(free, bytes, Ok(request)), request.id@) == free
        }),
{
    let free = after_answer(session, request.id@);
    assert(after_answer(after_line(free, bytes, Ok(request)), request.id@) =~= free);
}

/// Where events are told beside the answers, a line that is no request changes
/// nothing once that is told; where they are not, it ends the service as a failure
/// of the protocol.
pub proof fn bad_line_ends_only_a_plain_service(
    session: SessionView,
    bytes: Seq<u8>,
    request: Result<InstallRequest, String>,
)
    requires
        session.reading,
        !session.reporting,
        !is_blank(bytes),
        line_error(session.active, bytes, request) is Some,
    ensures
        ({
            let after = after_report(after_line(session, bytes, request), true);
            if session.events_to_stderr {
                after == session
            } else {
                !after.reading && after.protocol_failed && after.active == session.active
            }
        }),
{
}

/// Where events are told beside the answers, nothing but answers is told among them;
/// where they are not, all that is told is.
pub proof fn events_stay_beside_the_answers(session: SessionView)
    ensures
        answer_output(session) == Output::Answers,
        if session.events_to_stderr {
            &&& diagnostic_output(session) == Output::Events
            &&& diagnostic_output(session) != answer_output(session)
            &&& progress_output(session) == Some(diagnostic_output(session))
        } else {
            &&& diagnostic_output(session) == answer_output(session)
            &&& progress_output(session) is None
        },
{
}

/// A service whose output is closed reads no more, gives up what is not answered,
/// and fails, whether it finds that out at once or when it wants to tell something.
pub proof fn closed_output_fails_the_service(session: SessionView, written: Result<(), String>)
    ensures
        ({
            let stopped = after_writer_stopped(session);
            &&& !stopped.reading
            &&& stopped.output_failed
            &&& service_result(stopped, written) is Err
        }),
        ({
            let undelivered = after_report(session, false);
            &&& !undelivered.reading
            &&& undelivered.output_failed
            &&& service_result(undelivered, written) is Err
        }),
{
}

/// What happens to the requests of a service.
pub enum Occurrence {
    /// A line comes.
    Line { bytes: Seq<u8>, request: Result<InstallRequest, String> },
    /// The request with an id is answered.
    Answer { id: Seq<char> },
}

/// The service after a number of occurrences, where all events could be told.
pub open spec fn after_occurrences(
    session: SessionView,
    occurrences: Seq<Occurrence>,
) -> SessionView
    decreases occurrences.len(),
{
    if occurrences.len() == 0 {
        session
    } else {
        let before = after_occurrences(session, occurrences.drop_last());
        match occurrences.last() {
            Occurrence::Line { bytes, request } => {
                let after = after_line(before, bytes, request);
                if after.reporting {
                    after_report(after, true)
                } else {
                    after
                }
            },
            Occurrence::Answer { id } => after_answer(before, id),
        }
    }
}

/// How many requests with an id were taken.
pub open spec fn times_taken(
    session: SessionView,
    occurrences: Seq<Occurrence>,
    id: Seq<char>,
) -> nat
    decreases occurrences.len(),
{
    if occurrences.len() == 0 {
        0
    } else {
        let before = after_occurrences(session, occurrences.drop_last());
        let count = times_taken(session, occurrences.drop_last(), id);
        match occurrences.last() {
            Occurrence::Line { bytes, request } => if !is_blank(bytes) && line_error(
                before.active,
                bytes,
                request,
            ) is None && request->Ok_0.id@ == id {
                count + 1
            } else {
                count
            },
            Occurrence::Answer { .. } => count,
        }
    }
}

/// How many requests with an id were answered.
pub open spec fn times_answered(
    session: SessionView,
    occurrences: Seq<Occurrence>,
    id: Seq<char>,
) -> nat
    decreases occurrences.len(),
{
    if occurrences.len() == 0 {
        0
    } else {
        let before = after_occurrences(session, occurrences.drop_last());
        let count = times_answered(session, occurrences.drop_last(), id);
        match occurrences.last() {
            Occurrence::Line { .. } => count,
            Occurrence::Answer { id: answered } => if answered == id && before.active.contains(id) {
                count + 1
            } else {
                count
            },
        }
    }
}

/// Whatever comes, and in whatever order requests are answered, the requests with
/// an id that were taken are those that were answered, and the one that is not, if
/// there is one: at no time are there two of them.
pub proof fn requests_are_answered_one_for_one(
    session: SessionView,
    occurrences: Seq<Occurrence>,
    id: Seq<char>,
)
    requires
        session.active == Set::<Seq<char>>::empty(),
        !session.reporting,
    ensures
        times_taken(session, occurrences, id) == times_answered(session, occurrences, id) + (
        if after_occurrences(session, occurrences).active.contains(id) {
            1int
        } else {
            0int
        }),
    decreases occurrences.len(),
{
    if occurrences.len() > 0 {
        requests_are_answered_one_for_one(session, occurrences.drop_last(), id);
    }
}

/// The id of a line that is no request is told exactly where the line is a JSON object
/// with a text as its `id`.
pub proof fn ids_are_recovered_from_objects(value: Option<Json>, id: Seq<char>)
    ensures
        recovered_id(value) == Some(id) <==> value is Some && match value->0 {
            Json::Object(fields) => fields.contains_key("id"@) && fields["id"@] == Json::Text(id),
            _ => false,
        },
{
}

/// A line is passed over exactly where all its bytes are blanks, tabs, line feeds, form
/// feeds or carriage returns.
pub proof fn blank_lines_are_white_space(line: Seq<u8>)
    ensures
        is_blank(line) <==> forall|i: int|
            0 <= i < line.len() ==> seq![32u8, 9u8, 10u8, 12u8, 13u8].contains(#[trigger] line[i]),
{
    let blanks = seq![32u8, 9u8, 10u8, 12u8, 13u8];
    assert forall|byte: u8| #[trigger] blanks.contains(byte) <==> is_blank_byte(byte) by {
        assert(blanks[0] == 32 && blanks[1] == 9 && blanks[2] == 10 && blanks[3] == 12 && blanks[4]
            == 13);
        if blanks.contains(byte) {
            let k = choose|k: int| 0 <= k < blanks.len() && blanks[k] == byte;
        }
    }
    if is_blank(line) {
        assert forall|i: int| 0 <= i < line.len() implies blanks.contains(#[trigger] line[i]) by {
            assert(is_blank_byte(line[i]));
        }
    }
    if forall|i: int| 0 <= i < line.len() ==> blanks.contains(#[trigger] line[i]) {
        assert forall|i: int| 0 <= i < line.len() implies is_blank_byte(#[trigger] line[i]) by {
            assert(blanks.contains(line[i]));
        }
    }
}

/// A line is taken exactly where it asks for something under an id that is not empty and
/// not in use; otherwise the event that refuses it carries the id, as far as it can be
/// told, and why.
pub proof fn lines_are_taken_or_refused(
    session: SessionView,
    bytes: Seq<u8>,
    request: Result<InstallRequest, String>,
)
    requires
        !is_blank(bytes),
    ensures
        ({
            let error = line_error(session.active, bytes, request);
            let after = after_line(session, bytes, request);
            &&& error is None <==> request is Ok && request->Ok_0.id@.len() > 0
                && !session.active.contains(request->Ok_0.id@)
            &&& request is Err ==> error == Some(
                (recovered_id(parse_json(bytes)), request->Err_0@),
            )
            &&& request is Ok && request->Ok_0.id@.len() == 0 ==> error == Some(
                (Some(request->Ok_0.id@), "request id must not be empty"@),
            )
            &&& request is Ok && request->Ok_0.id@.len() > 0 && session.active.contains(
                request->Ok_0.id@,
            ) ==> error == Some((Some(request->Ok_0.id@), "request id is already in flight"@))
            &&& error is None ==> after == (SessionView {
                active: session.active.insert(request->Ok_0.id@),
                ..session
            })
            &&& error is Some ==> after == (SessionView { reporting: true, ..session })
        }),
{
}

/// A blank line changes nothing. An event that cannot be told ends the service as one
/// that failed to tell; an event that is told ends it only where events are not told
/// beside the answers. An answer frees its id and no other.
pub proof fn services_go_on_or_end(
    session: SessionView,
    bytes: Seq<u8>,
    request: Result<InstallRequest, String>,
    id: Seq<char>,
)
    ensures
        is_blank(bytes) ==> after_line(session, bytes, request) == session,
        after_report(session, false) == (SessionView {
            reporting: false,
            reading: false,
            output_failed: true,
            ..session
        }),
        session.events_to_stderr ==> after_report(session, true) == (SessionView {
            reporting: false,
            ..session
        }),
        !session.events_to_stderr ==> after_report(session, true) == (SessionView {
            reporting: false,
            reading: false,
            protocol_failed: true,
            ..session
        }),
        !after_answer(session, id).active.contains(id),
        forall|other: Seq<char>|
            other != id ==> (#[trigger] after_answer(session, id).active.contains(other)
                <==> session.active.contains(other)),
        after_answer(session, id) == (SessionView {
            active: after_answer(session, id).active,
            ..session
        }),
        service_result(session, Ok(())) == (if session.output_failed {
            Err(ErrorView::OutputClosed)
        } else if session.protocol_failed {
            Ok(ServeOutcome::ProtocolError)
        } else {
            Ok(ServeOutcome::Complete)
        }),
        forall|reason: String| #[trigger]
            service_result(session, Err(reason)) == Err::<ServeOutcome, ErrorView>(
                ErrorView::Failed { reason: reason@ },
            ),
{
}

proof fn lemma_field_names()
    ensures
        "id"@ != "type"@,
        "id"@ != "message"@,
        "id"@ != "root"@,
        "id"@ != "stage"@,
        "id"@ != "event"@,
        "type"@ != "message"@,
        "type"@ != "root"@,
        "type"@ != "stage"@,
        "type"@ != "event"@,
        "stage"@ != "event"@,
{
    reveal_strlit("id");
    reveal_strlit("type");
    reveal_strlit("message");
    reveal_strlit("root");
    reveal_strlit("stage");
    reveal_strlit("event");
    assert("id"@.len() == 2 && "type"@.len() == 4 && "message"@.len() == 7 && "root"@.len() == 4
        && "stage"@.len() == 5 && "event"@.len() == 5);
    assert("type"@[0] == 't' && "root"@[0] == 'r' && "stage"@[0] == 's' && "event"@[0] == 'e');
}

/// The last event of a request has its id and says where the plan is installed, or what
/// went wrong in full, and nothing else. An event that refuses a line has the id that was
/// recovered, or none.
pub proof fn answers_say_what_came_of_a_request(
    id: Seq<char>,
    result: Result<Vec<u8>, Error>,
    recovered: Option<Seq<char>>,
    message: Seq<char>,
)
    ensures
        match result {
            Ok(root) => terminal_json(id, result) == Json::Object(
                map!["id"@ => Json::Text(id), "type"@ => Json::Text("result"@),
                "root"@ => Json::Text(lossy_text(root@))],
            ),
            Err(error) => terminal_json(id, result) == Json::Object(
                map!["id"@ => Json::Text(id), "type"@ => Json::Text("error"@),
                "message"@ => Json::Text(error_message(error@))],
            ),
        },
        error_json(recovered, message) == Json::Object(
            map!["id"@ => (match recovered {
                Some(id) => Json::Text(id),
                None => Json::Null,
            }), "type"@ => Json::Text("error"@), "message"@ => Json::Text(message)],
        ),
{
}

/// Progress has the fields of its event but for the name, and besides, where the event
/// has no such fields, the id of the request, its type and its stage. The stage is
/// waiting where the event is named so, else a download where it has a download key, else
/// an installation.
pub proof fn progress_keeps_the_fields_of_its_event(
    id: Seq<char>,
    fields: Map<Seq<char>, Json>,
    name: Seq<char>,
)
    ensures
        ({
            let told = progress_json(id, Json::Object(fields));
            let stage = if fields.contains_key("event"@) && fields["event"@] == Json::Text(
                "waiting"@,
            ) {
                "waiting"@
            } else if fields.contains_key("dl_key"@) {
                "download"@
            } else {
                "install"@
            };
            &&& told is Object
            &&& told->Object_0.contains_key(name) <==> name == "id"@ || name == "type"@ || name
                == "stage"@ || name != "event"@ && fields.contains_key(name)
            &&& name != "event"@ && fields.contains_key(name) ==> told->Object_0[name]
                == fields[name]
            &&& !fields.contains_key("id"@) ==> told->Object_0["id"@] == Json::Text(id)
            &&& !fields.contains_key("type"@) ==> told->Object_0["type"@] == Json::Text(
                "progress"@,
            )
            &&& !fields.contains_key("stage"@) ==> told->Object_0["stage"@] == Json::Text(stage)
        }),
{
    lemma_field_names();
}

/// Of an event that has no fields, progress tells that the request is at its
/// installation.
pub proof fn progress_without_fields(id: Seq<char>, event: Json)
    requires
        !(event is Object),
    ensures
        progress_json(id, event) == Json::Object(
            map!["id"@ => Json::Text(id), "type"@ => Json::Text("progress"@),
            "stage"@ => Json::Text("install"@)],
        ),
{
    let told = progress_json(id, event)->Object_0;
    assert(told =~= map!["id"@ => Json::Text(id), "type"@ => Json::Text("progress"@),
        "stage"@ => Json::Text("install"@)]);
}

} // verus!
