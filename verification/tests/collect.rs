use imos::collect::{
    collect_requests, sweep_all, sweep_keyed_dir, GcReport, Listing, RequestEntry,
};
use imos::digest::key_name;
use imos::intent::Intents;
use imos::store::Store;

fn texts(list: &[&str]) -> Vec<String> {
    list.iter().map(|text| (*text).to_owned()).collect()
}

fn entry(name: &str, links: u64) -> RequestEntry {
    RequestEntry { name: name.as_bytes().to_vec(), links }
}

fn named(key: &str) -> Vec<u8> {
    key_name(key).into_bytes()
}

fn shared() -> Intents {
    let mut intents = Intents::new();
    intents.add_request("1", "plan", &texts(&["a"]));
    intents.add_request("2", "plan", &texts(&["a"]));
    intents.add_request("3", "other", &texts(&["b"]));
    intents
}

#[test]
fn requests_end_with_their_files() {
    let mut intents = shared();
    let known = intents.request_inodes();
    let exists = known.iter().map(|inode| inode != "3").collect();
    let entries = vec![entry("1", 1), entry("2", 2), entry("stray", 2)];
    let sweep = collect_requests(&mut intents, &known, &exists, &entries);
    assert_eq!(sweep.removals, vec![b"1".to_vec(), b"stray".to_vec()]);
    assert_eq!(sweep.count, 3);
    assert_eq!(intents.request_inodes(), texts(&["2"]));
    assert_eq!(intents.live_plan_keys(), texts(&["plan"]));
    assert_eq!(intents.relations().len(), 1);
}

#[test]
fn names_that_are_no_text_are_nobodys() {
    let mut intents = shared();
    let known = intents.request_inodes();
    let exists = vec![true; known.len()];
    let entries = vec![RequestEntry { name: b"\xff".to_vec(), links: 2 }];
    let sweep = collect_requests(&mut intents, &known, &exists, &entries);
    assert_eq!(sweep.removals, vec![b"\xff".to_vec()]);
    assert_eq!(intents.requests().len(), 3);
}

#[test]
fn objects_of_live_keys_stay() {
    let names = vec![named("a"), b"junk".to_vec(), named("b"), named("c")];
    let removals = sweep_keyed_dir(&names, &texts(&["a", "c"]));
    assert_eq!(removals, vec![b"junk".to_vec(), named("b")]);
    let left = vec![named("a"), named("c")];
    assert!(sweep_keyed_dir(&left, &texts(&["a", "c"])).is_empty());
    assert_eq!(sweep_keyed_dir(&left, &Vec::new()), left);
}

#[test]
fn all_temporary_names_go() {
    let names = vec![b"x".to_vec(), b"y".to_vec()];
    assert_eq!(sweep_all(&names), names);
}

fn listing(intents: &Intents, requests: Vec<RequestEntry>) -> Listing {
    let known = intents.request_inodes();
    let exists = vec![true; known.len()];
    Listing {
        known,
        exists,
        requests,
        installs: vec![named("plan"), named("other"), named("dead")],
        downloads: vec![named("a"), named("b"), named("dead")],
        temporary: vec![b"install-1".to_vec()],
    }
}

#[test]
fn a_collection_keeps_what_is_wanted() {
    let store = Store::open(b"/s".to_vec());
    let mut intents = shared();
    let found = listing(&intents, vec![entry("1", 1), entry("2", 2), entry("3", 2)]);
    let sweep = store.gc(&mut intents, &found);
    assert_eq!(sweep.requests, vec![b"1".to_vec()]);
    assert_eq!(sweep.installs, vec![named("dead")]);
    assert_eq!(sweep.downloads, vec![named("dead")]);
    assert_eq!(sweep.temporary, vec![b"install-1".to_vec()]);
    assert_eq!(
        sweep.report,
        GcReport { installs: 1, downloads: 1, requests: 1, temporary: 1 }
    );
}

#[test]
fn objects_go_with_the_last_request() {
    let store = Store::open(b"/s".to_vec());
    let mut intents = shared();
    let found = listing(&intents, vec![entry("1", 1), entry("2", 1), entry("3", 2)]);
    let sweep = store.gc(&mut intents, &found);
    assert_eq!(sweep.installs, vec![named("plan"), named("dead")]);
    assert_eq!(sweep.downloads, vec![named("a"), named("dead")]);
    assert_eq!(intents.live_plan_keys(), texts(&["other"]));
}

#[test]
fn a_second_collection_finds_nothing() {
    let store = Store::open(b"/s".to_vec());
    let mut intents = shared();
    let found = listing(&intents, vec![entry("1", 1), entry("2", 2), entry("3", 2)]);
    store.gc(&mut intents, &found);
    let known = intents.request_inodes();
    let exists = vec![true; known.len()];
    let again = Listing {
        known,
        exists,
        requests: vec![entry("2", 2), entry("3", 2)],
        installs: vec![named("plan"), named("other")],
        downloads: vec![named("a"), named("b")],
        temporary: Vec::new(),
    };
    let sweep = store.gc(&mut intents, &again);
    assert_eq!(sweep.report, GcReport::default());
    assert_eq!(intents.requests().len(), 2);
}

#[test]
fn reports_are_told() {
    let report = GcReport { installs: 1, downloads: 20, requests: 0, temporary: 3 };
    assert_eq!(report.text(), "install=1 dl=20 request=0 tmp=3");
    assert_eq!(GcReport::default().text(), "install=0 dl=0 request=0 tmp=0");
}
