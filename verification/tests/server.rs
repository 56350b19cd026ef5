use imos::error::Error;
use imos::progress::{completed, download_started, install_started, waiting};
use imos::server::{
    error_event, id_of, is_blank_line, progress_event, recover_id, terminal_event, Action, Input,
    InstallRequest, Output, ServeOutcome, Session,
};
use serde_json::Value;

fn request(id: &str) -> Input {
    Input::Line {
        bytes: b"{...}\n".to_vec(),
        request: Ok(InstallRequest { id: id.to_owned(), plan_file: b"/p".to_vec() }),
    }
}

fn bad(bytes: &[u8]) -> Input {
    Input::Line { bytes: bytes.to_vec(), request: Err("bad line".to_owned()) }
}

fn started(action: Action) -> String {
    match action {
        Action::Start { request } => request.id,
        other => panic!("{other:?}"),
    }
}

fn answer(session: &mut Session, id: &str) -> Value {
    let event = session.answer(id, &Ok(b"/s/install/n/root".to_vec()));
    assert_eq!(event["id"], id);
    event["type"].clone()
}

fn reported(action: Action) -> Value {
    match action {
        Action::Report { event } => event,
        other => panic!("{other:?}"),
    }
}

#[test]
fn requests_are_started_and_answered() {
    let mut session = Session::new(false);
    assert_eq!(started(session.receive(request("a"))), "a");
    assert_eq!(started(session.receive(request("b"))), "b");
    assert_eq!(answer(&mut session, "a"), "result");
    assert_eq!(started(session.receive(request("a"))), "a");
    assert!(matches!(session.receive(Input::End), Action::Stop));
    assert!(!session.is_reading());
    assert!(!session.gives_up());
    assert_eq!(session.outcome(), ServeOutcome::Complete);
}

#[test]
fn duplicates_leave_the_first_alone() {
    let mut session = Session::new(true);
    assert_eq!(started(session.receive(request("same"))), "same");
    let event = reported(session.receive(request("same")));
    assert_eq!(event["id"], "same");
    assert_eq!(event["type"], "error");
    assert_eq!(event["message"], "request id is already in flight");
    session.reported(true);
    assert!(session.is_reading());
    assert_eq!(answer(&mut session, "same"), "result");
    assert_eq!(started(session.receive(request("same"))), "same");
}

#[test]
fn empty_ids_are_refused() {
    let mut session = Session::new(true);
    let event = reported(session.receive(request("")));
    assert_eq!(event["id"], "");
    assert_eq!(event["message"], "request id must not be empty");
}

#[test]
fn bad_lines_do_not_end_a_service_with_events() {
    let mut session = Session::new(true);
    assert_eq!(session.diagnostics(), Output::Events);
    assert_eq!(session.progress(), Some(Output::Events));
    assert_eq!(session.answers(), Output::Answers);
    let event = reported(session.receive(bad(b"not json\n")));
    assert_eq!(event["id"], Value::Null);
    assert_eq!(event["message"], "bad line");
    session.reported(true);
    let event = reported(session.receive(bad(b"{\"id\":\"x\",\"home\":1}\n")));
    assert_eq!(event["id"], "x");
    session.reported(true);
    assert_eq!(started(session.receive(request("after"))), "after");
    session.receive(Input::End);
    assert_eq!(session.outcome(), ServeOutcome::Complete);
    assert!(!session.gives_up());
}

#[test]
fn bad_lines_end_a_plain_service() {
    let mut session = Session::new(false);
    assert_eq!(session.diagnostics(), Output::Answers);
    assert_eq!(session.progress(), None);
    assert_eq!(session.answers(), Output::Answers);
    reported(session.receive(bad(b"not json\n")));
    session.reported(true);
    assert!(!session.is_reading());
    assert!(session.gives_up());
    assert_eq!(session.outcome(), ServeOutcome::ProtocolError);
}

#[test]
fn blank_lines_are_passed_over() {
    let mut session = Session::new(false);
    assert!(matches!(session.receive(bad(b" \t\r\n")), Action::Skip));
    assert!(matches!(session.receive(bad(b"")), Action::Skip));
    assert!(session.is_reading());
    assert!(is_blank_line(b"\x0c\n"));
    assert!(!is_blank_line(b"\x0b\n"));
    assert!(!is_blank_line(b" x "));
}

#[test]
fn a_service_ends_when_nothing_can_be_told() {
    let mut session = Session::new(true);
    reported(session.receive(bad(b"x")));
    session.reported(false);
    assert!(!session.is_reading());
    assert!(session.gives_up());
    assert_eq!(session.outcome(), ServeOutcome::Complete);
    let mut session = Session::new(false);
    assert_eq!(started(session.receive(request("valid"))), "valid");
    assert!(matches!(session.receive(Input::WriterStopped), Action::Stop));
    assert!(!session.is_reading());
    assert!(session.gives_up());
    assert!(session.failed());
    assert_eq!(session.finish(Ok(())).unwrap_err().message(), "output is closed");
    let broken = session.finish(Err("broken pipe".to_owned())).unwrap_err();
    assert_eq!(broken.message(), "broken pipe");
}

#[test]
fn a_service_comes_to_its_outcome() {
    let mut session = Session::new(false);
    session.receive(Input::End);
    assert!(!session.failed());
    assert_eq!(session.finish(Ok(())).unwrap(), ServeOutcome::Complete);
    assert!(session.finish(Err("broken pipe".to_owned())).is_err());
    let mut session = Session::new(false);
    reported(session.receive(bad(b"x")));
    session.reported(true);
    assert_eq!(session.finish(Ok(())).unwrap(), ServeOutcome::ProtocolError);
}

#[test]
fn a_service_ends_when_nothing_can_be_read() {
    let mut session = Session::new(true);
    match session.receive(Input::ReadFailed { reason: "closed".to_owned() }) {
        Action::Abandon { event } => {
            assert_eq!(event["id"], Value::Null);
            assert_eq!(event["message"], "closed");
        }
        other => panic!("{other:?}"),
    }
    assert!(!session.is_reading());
    assert_eq!(session.outcome(), ServeOutcome::ProtocolError);
}

#[test]
fn ids_are_recovered() {
    assert_eq!(recover_id(b"{\"id\":\"a\",\"x\":1}"), Some("a".to_owned()));
    assert_eq!(recover_id(b"{\"id\":1}"), None);
    assert_eq!(recover_id(b"{}"), None);
    assert_eq!(recover_id(b"[\"id\"]"), None);
    assert_eq!(recover_id(b"not json"), None);
    assert_eq!(id_of(&None), None);
    assert_eq!(id_of(&Some(error_event(Some("z".to_owned()), "m"))), Some("z".to_owned()));
}

#[test]
fn requests_end_with_one_event() {
    let event = terminal_event("a", &Ok(b"/s/install/n/root".to_vec()));
    assert_eq!(
        event.to_string(),
        "{\"id\":\"a\",\"root\":\"/s/install/n/root\",\"type\":\"result\"}"
    );
    let failure = Error::ReadPlan { path: b"/p".to_vec(), reason: "why".to_owned() };
    let event = terminal_event("a", &Err(failure));
    assert_eq!(
        event.to_string(),
        "{\"id\":\"a\",\"message\":\"read plan file /p: why\",\"type\":\"error\"}"
    );
    assert_eq!(
        error_event(None, "m").to_string(),
        "{\"id\":null,\"message\":\"m\",\"type\":\"error\"}"
    );
}

#[test]
fn progress_has_a_stage() {
    assert_eq!(
        progress_event("r", &waiting()).to_string(),
        "{\"id\":\"r\",\"stage\":\"waiting\",\"type\":\"progress\"}"
    );
    assert_eq!(
        progress_event("r", &download_started("d")).to_string(),
        "{\"dl_key\":\"d\",\"id\":\"r\",\"stage\":\"download\",\"type\":\"progress\"}"
    );
    assert_eq!(
        progress_event("r", &install_started("p")).to_string(),
        "{\"id\":\"r\",\"plan_key\":\"p\",\"stage\":\"install\",\"type\":\"progress\"}"
    );
    assert_eq!(
        progress_event("r", &completed(true)).to_string(),
        "{\"cached\":true,\"id\":\"r\",\"stage\":\"install\",\"type\":\"progress\"}"
    );
    assert_eq!(
        progress_event("r", &Value::Null).to_string(),
        "{\"id\":\"r\",\"stage\":\"install\",\"type\":\"progress\"}"
    );
}
