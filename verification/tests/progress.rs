use imos::progress::{
    completed, download_progress, download_started, downloaded, event_line, failed,
    install_started, installing, lock_held, wait_event, waiting, Follower, LockOutcome,
};

fn line(event: &serde_json::Value) -> String {
    String::from_utf8(event_line(event).unwrap()).unwrap()
}

#[test]
fn events_are_lines() {
    assert_eq!(line(&install_started("p")), "{\"event\":\"started\",\"plan_key\":\"p\"}\n");
    assert_eq!(line(&download_started("d")), "{\"dl_key\":\"d\",\"event\":\"started\"}\n");
    assert_eq!(line(&installing()), "{\"event\":\"install\"}\n");
    assert_eq!(
        line(&download_progress("d", 5, Some(9))),
        "{\"current\":5,\"dl_key\":\"d\",\"event\":\"download\",\"total\":9}\n"
    );
    assert_eq!(
        line(&download_progress("d", 5, None)),
        "{\"current\":5,\"dl_key\":\"d\",\"event\":\"download\",\"total\":null}\n"
    );
    assert_eq!(
        line(&downloaded("d", 5, "sha256:x")),
        "{\"digest\":\"sha256:x\",\"dl_key\":\"d\",\"event\":\"downloaded\",\"size\":5}\n"
    );
    assert_eq!(line(&completed(true)), "{\"cached\":true,\"event\":\"completed\"}\n");
    assert_eq!(
        line(&failed("a\nb")),
        "{\"event\":\"failed\",\"message\":\"a\\nb\"}\n"
    );
    assert_eq!(line(&waiting()), "{\"event\":\"waiting\"}\n");
}

#[test]
fn events_are_followed_as_they_are_written() {
    let mut follower = Follower::new();
    let mut file = Vec::new();
    assert!(follower.poll(&file).is_empty());
    file.extend(event_line(&install_started("p")).unwrap());
    let second = event_line(&installing()).unwrap();
    file.extend(&second[..4]);
    let events = follower.poll(&file);
    assert_eq!(events.len(), 1);
    assert_eq!(events[0]["plan_key"], "p");
    assert!(follower.poll(&file).is_empty());
    file.extend(&second[4..]);
    let events = follower.poll(&file);
    assert_eq!(events.len(), 1);
    assert_eq!(events[0], installing());
}

#[test]
fn a_shorter_file_is_followed_from_its_start() {
    let mut follower = Follower::new();
    let mut file = event_line(&install_started("first")).unwrap();
    file.extend(event_line(&installing()).unwrap());
    assert_eq!(follower.poll(&file).len(), 2);
    let again = event_line(&completed(false)).unwrap();
    let events = follower.poll(&again);
    assert_eq!(events, vec![completed(false)]);
}

#[test]
fn lines_that_are_no_events_are_passed_over() {
    let mut follower = Follower::new();
    let events = follower.poll(b"\nnot json\n{\"event\":\"install\"}\n\n[1]\n{\"cut");
    assert_eq!(events.len(), 2);
    assert_eq!(events[0], installing());
    assert!(events[1].is_array());
}

#[test]
fn written_events_come_back() {
    let events = vec![install_started("p"), download_progress("d", 1, None), failed("why")];
    let mut file = Vec::new();
    for event in &events {
        file.extend(event_line(event).unwrap());
    }
    file.extend(b"{\"half\":");
    assert_eq!(Follower::new().poll(&file), events);
}

#[test]
fn following_in_turns_loses_nothing() {
    let mut file = Vec::new();
    for index in 0..20 {
        file.extend(event_line(&download_progress("d", index, None)).unwrap());
    }
    let all = Follower::new().poll(&file);
    assert_eq!(all.len(), 20);
    let mut follower = Follower::new();
    let mut turns = Vec::new();
    for end in (0..file.len()).step_by(7) {
        turns.extend(follower.poll(&file[..end]));
    }
    turns.extend(follower.poll(&file));
    assert_eq!(turns, all);
}

#[test]
fn locks_are_held_waited_for_or_refused() {
    assert!(lock_held(b"/l", LockOutcome::Acquired).unwrap());
    assert!(!lock_held(b"/l", LockOutcome::Busy).unwrap());
    let failed = LockOutcome::Failed { reason: "no locks".to_owned() };
    assert_eq!(lock_held(b"/l", failed).unwrap_err().message(), "acquire lock /l: no locks");
}

#[test]
fn those_who_wait_tell_it() {
    assert_eq!(wait_event(b"/l", LockOutcome::Acquired).unwrap(), None);
    assert_eq!(wait_event(b"/l", LockOutcome::Busy).unwrap(), Some(waiting()));
    let failed = LockOutcome::Failed { reason: "no locks".to_owned() };
    assert_eq!(wait_event(b"/l", failed).unwrap_err().message(), "acquire lock /l: no locks");
}
