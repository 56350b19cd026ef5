use imos::archive::Step;
use imos::digest::key_name;
use imos::store::{object_root, Store};

fn store() -> Store {
    Store::open(b"/s".to_vec())
}

fn text(bytes: &[u8]) -> String {
    String::from_utf8(bytes.to_vec()).unwrap()
}

#[test]
fn a_store_is_private_and_has_its_directories() {
    let steps = store().layout();
    assert!(matches!(&steps[0], Step::CreateTree { path } if path == b"/s"));
    assert!(matches!(&steps[1], Step::SetMode { path, mode: 0o700 } if path == b"/s"));
    let made: Vec<String> = steps[2..]
        .iter()
        .map(|step| match step {
            Step::CreateTree { path } => text(path),
            other => panic!("{other:?}"),
        })
        .collect();
    assert_eq!(
        made,
        vec![
            "/s/requests",
            "/s/dl",
            "/s/install",
            "/s/locks/dl",
            "/s/locks/install",
            "/s/tmp"
        ]
    );
}

#[test]
fn failures_of_the_layout_are_told() {
    let told = |index| store().layout_error(index, "why".to_owned()).message();
    assert_eq!(told(0), "create store root /s: why");
    assert_eq!(told(1), "why");
    assert_eq!(told(2), "create store directory requests: why");
    assert_eq!(told(6), "create store directory locks/install: why");
    assert_eq!(told(7), "create store directory tmp: why");
    assert_eq!(told(8), "why");
}

#[test]
fn places_of_a_store() {
    let store = store();
    assert_eq!(store.root(), b"/s");
    assert_eq!(text(&store.requests_path()), "/s/requests");
    assert_eq!(text(&store.installs_path()), "/s/install");
    assert_eq!(text(&store.downloads_path()), "/s/dl");
    assert_eq!(text(&store.temporary_path()), "/s/tmp");
    assert_eq!(text(&store.state_path()), "/s/state.sqlite");
    assert_eq!(text(&store.gc_lock_path()), "/s/locks/gc");
    assert_eq!(text(&store.request_path("42")), "/s/requests/42");
}

#[test]
fn objects_and_locks_go_by_the_name_of_their_key() {
    let store = store();
    let name = key_name("k");
    assert_eq!(text(&store.install_object("k")), format!("/s/install/{name}"));
    assert_eq!(text(&store.install_lock("k")), format!("/s/locks/install/{name}"));
    assert_eq!(text(&store.download_object("k")), format!("/s/dl/{name}"));
    assert_eq!(text(&store.download_lock("k")), format!("/s/locks/dl/{name}"));
    assert_eq!(
        text(&object_root(&store.install_object("k"))),
        format!("/s/install/{name}/root")
    );
}

#[test]
fn objects_are_apart() {
    let store = store();
    assert_ne!(store.install_object("k"), store.download_object("k"));
    assert_ne!(store.install_object("a"), store.install_object("b"));
}
