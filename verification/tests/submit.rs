use imos::digest::key_name;
use imos::error::Error;
use imos::intent::Intents;
use imos::plan::{Item, LoadedPlan, Plan, PlanEnvelope, PlanItem};
use imos::store::Store;
use imos::submit::{FileFacts, Findings, Installed, LinkOutcome, Linked, Placed};

fn facts() -> FileFacts {
    FileFacts {
        regular: true,
        device: 7,
        inode: 42,
        links: 1,
        length: 100,
        modified: 1000,
        modified_nanos: 5,
    }
}

fn loaded(key: &str) -> LoadedPlan {
    let item = |key: &str| Item {
        key: key.to_owned(),
        url: "file:///x".to_owned(),
        size: None,
        digest: None,
        action: PlanItem::InstallFile { to: b"x".to_vec() },
    };
    LoadedPlan::Parsed {
        envelope: PlanEnvelope {
            imos: Plan { version: 1, key: key.to_owned(), items: vec![item("a"), item("b")] },
            extensions: serde_json::Map::new(),
        },
    }
}

fn placed(facts: FileFacts) -> Placed {
    let store = Store::open(b"/s".to_vec());
    store.create(b"/p.json", Ok(facts)).unwrap().place(Ok(7)).unwrap()
}

fn installed(registered: bool) -> Installed {
    let planned = placed(facts()).accept(registered).unwrap().read(loaded("plan")).unwrap();
    assert_eq!(planned.plan().key, "plan");
    planned.install(Ok(false)).unwrap()
}

fn linked() -> Linked {
    installed(false).link(Some(LinkOutcome::Linked)).unwrap()
}

fn internal() -> FileFacts {
    FileFacts { links: 2, ..facts() }
}

#[test]
fn a_plan_file_becomes_a_request() {
    let mut intents = Intents::new();
    let confirmed = linked().confirm(Ok(internal())).unwrap();
    let root = confirmed.record(&mut intents).unwrap();
    assert_eq!(root, format!("/s/install/{}/root", key_name("plan")).into_bytes());
    assert_eq!(intents.request_plan("42"), Some("plan".to_owned()));
    let mut downloads = intents.live_download_keys();
    downloads.sort();
    assert_eq!(downloads, vec!["a".to_owned(), "b".to_owned()]);
}

#[test]
fn submitting_again_changes_nothing() {
    let mut intents = Intents::new();
    linked().confirm(Ok(internal())).unwrap().record(&mut intents).unwrap();
    let again = installed(true);
    assert!(!again.needs_link());
    let again = again.link(None).unwrap().confirm(Ok(internal())).unwrap();
    assert!(again.record(&mut intents).is_ok());
    assert_eq!(intents.requests().len(), 1);
    assert_eq!(intents.relations().len(), 2);
}

#[test]
fn plan_files_are_inspected() {
    let store = Store::open(b"/s".to_vec());
    let error = store.create(b"/p.json", Err("gone".to_owned())).unwrap_err();
    assert_eq!(error.message(), "read plan metadata /p.json: gone");
    let directory = FileFacts { regular: false, ..facts() };
    let error = store.create(b"/p.json", Ok(directory)).unwrap_err();
    assert_eq!(error.message(), "plan must be a regular file");
}

#[test]
fn plan_files_share_the_file_system_of_the_store() {
    let store = Store::open(b"/s".to_vec());
    let inspected = store.create(b"/p.json", Ok(facts())).unwrap();
    let error = inspected.place(Ok(8)).unwrap_err();
    assert_eq!(error.message(), "plan file and store must be on the same file system");
    let inspected = store.create(b"/p.json", Ok(facts())).unwrap();
    assert_eq!(inspected.place(Err("no store".to_owned())).unwrap_err().message(), "no store");
    assert_eq!(placed(facts()).inode(), "42");
}

#[test]
fn a_new_plan_file_has_one_link() {
    let twice = FileFacts { links: 2, ..facts() };
    let error = placed(twice).accept(false).unwrap_err();
    assert_eq!(error.message(), "a new plan file must have exactly one link");
    assert!(placed(twice).accept(true).is_ok());
    assert!(placed(facts()).accept(false).is_ok());
}

#[test]
fn plan_files_hold_a_plan() {
    let admitted = placed(facts()).accept(false).unwrap();
    let error = admitted.read(LoadedPlan::Malformed { reason: "eof".to_owned() }).unwrap_err();
    assert_eq!(error.message(), "parse plan file /p.json: eof");
    let admitted = placed(facts()).accept(false).unwrap();
    assert_eq!(admitted.read(loaded("")).unwrap_err().message(), "plan key must not be empty");
}

#[test]
fn failed_installations_end_a_submission() {
    let planned = placed(facts()).accept(false).unwrap().read(loaded("plan")).unwrap();
    let error = planned.install(Err(Error::MissingRoot)).unwrap_err();
    assert_eq!(error.message(), "installation object is missing its root directory");
}

#[test]
fn the_second_link_is_made() {
    assert!(installed(false).needs_link());
    let taken = |inode| installed(false).link(Some(LinkOutcome::Taken { inode }));
    assert!(taken(Ok(42)).is_ok());
    assert_eq!(
        taken(Ok(43)).unwrap_err().message(),
        "request inode path is already bound to another file"
    );
    assert_eq!(taken(Err("gone".to_owned())).unwrap_err().message(), "gone");
    let failed = LinkOutcome::Failed { reason: "denied".to_owned() };
    assert_eq!(
        installed(false).link(Some(failed)).unwrap_err().message(),
        "register plan inode 42: denied"
    );
}

#[test]
fn plan_files_are_not_touched_meanwhile() {
    let error = |internal| linked().confirm(internal).unwrap_err().message();
    let replaced = "plan file was replaced while being registered";
    assert_eq!(error(Ok(FileFacts { inode: 43, ..internal() })), replaced);
    assert_eq!(error(Ok(FileFacts { device: 8, ..internal() })), replaced);
    let modified = "plan file was modified while create was running";
    assert_eq!(error(Ok(FileFacts { length: 101, ..internal() })), modified);
    assert_eq!(error(Ok(FileFacts { modified: 1001, ..internal() })), modified);
    assert_eq!(error(Ok(FileFacts { modified_nanos: 6, ..internal() })), modified);
    assert_eq!(error(Ok(FileFacts { links: 1, ..internal() })), "upstream plan file was removed");
    assert_eq!(error(Err("gone".to_owned())), "gone");
}

#[test]
fn an_inode_is_not_bound_twice() {
    let mut intents = Intents::new();
    intents.add_request("42", "other", &Vec::new());
    let confirmed = linked().confirm(Ok(internal())).unwrap();
    assert_eq!(
        confirmed.record(&mut intents).unwrap_err().message(),
        "request inode is already bound to another plan key"
    );
    assert_eq!(intents.request_plan("42"), Some("other".to_owned()));
    assert!(intents.relations().is_empty());
}

#[test]
fn requests_are_taken_back_by_inode() {
    let store = Store::open(b"/s".to_vec());
    let mut intents = Intents::new();
    intents.add_request("42", "plan", &vec!["a".to_owned()]);
    intents.add_request("43", "plan", &vec!["a".to_owned()]);
    let removal = store.remove(b"/p.json", Ok(facts())).unwrap();
    assert_eq!(removal.record(&mut intents), b"/s/requests/42".to_vec());
    assert_eq!(intents.request_plan("42"), None);
    assert_eq!(intents.request_plan("43"), Some("plan".to_owned()));
    assert_eq!(intents.relations().len(), 1);
    let error = store.remove(b"/p.json", Err("gone".to_owned())).unwrap_err();
    assert_eq!(error.message(), "read plan metadata /p.json: gone");
}

#[test]
fn taking_back_undoes_a_submission() {
    let store = Store::open(b"/s".to_vec());
    let mut intents = Intents::new();
    intents.add_request("7", "other", &Vec::new());
    store.submit(b"/p.json", findings(false), &mut intents).unwrap();
    assert!(store.withdraw(b"/p.json", Err("gone".to_owned()), &mut intents).is_err());
    assert_eq!(intents.requests().len(), 2);
    let link = store.withdraw(b"/p.json", Ok(internal()), &mut intents).unwrap();
    assert_eq!(link, b"/s/requests/42".to_vec());
    assert_eq!(intents.requests().len(), 1);
    assert_eq!(intents.request_plan("7"), Some("other".to_owned()));
    assert_eq!(intents.relations().len(), 2);
}

fn findings(again: bool) -> Findings {
    Findings {
        metadata: Ok(if again { internal() } else { facts() }),
        device: Ok(7),
        registered: again,
        loaded: loaded("plan"),
        installed: Ok(again),
        link: if again { None } else { Some(LinkOutcome::Linked) },
        internal: Ok(internal()),
    }
}

#[test]
fn a_second_submission_gives_the_same_path() {
    let store = Store::open(b"/s".to_vec());
    let mut intents = Intents::new();
    let first = store.submit(b"/p.json", findings(false), &mut intents).unwrap();
    assert_eq!(first, format!("/s/install/{}/root", key_name("plan")).into_bytes());
    let again = store.submit(b"/p.json", findings(true), &mut intents).unwrap();
    assert_eq!(again, first);
    assert_eq!(intents.requests().len(), 1);
    assert_eq!(intents.relations().len(), 2);
}

#[test]
fn the_path_depends_on_the_store_and_the_plan_key_alone() {
    let store = Store::open(b"/s".to_vec());
    let mut intents = Intents::new();
    let first = store.submit(b"/p.json", findings(false), &mut intents).unwrap();
    let mut other = findings(false);
    other.metadata = Ok(FileFacts { inode: 43, ..facts() });
    other.internal = Ok(FileFacts { inode: 43, ..internal() });
    assert_eq!(store.submit(b"/q.json", other, &mut intents).unwrap(), first);
    assert_eq!(intents.requests().len(), 2);
    let elsewhere = Store::open(b"/t".to_vec());
    let moved = elsewhere.submit(b"/p.json", findings(false), &mut Intents::new()).unwrap();
    assert_ne!(moved, first);
}

#[test]
fn the_first_error_of_a_submission_is_told() {
    let store = Store::open(b"/s".to_vec());
    let mut intents = Intents::new();
    let mut late = findings(false);
    late.installed = Err(Error::MissingRoot);
    late.internal = Err("gone".to_owned());
    let error = store.submit(b"/p.json", late, &mut intents).unwrap_err();
    assert_eq!(error.message(), "installation object is missing its root directory");
    let mut early = findings(false);
    early.device = Ok(8);
    early.loaded = loaded("");
    let error = store.submit(b"/p.json", early, &mut intents).unwrap_err();
    assert_eq!(error.message(), "plan file and store must be on the same file system");
    assert!(intents.requests().is_empty());
}
