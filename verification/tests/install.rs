use imos::artifact::{DataFile, StoredDownload};
use imos::digest::{key_name, Digester};
use imos::error::Error;
use imos::install::{closing_event, valid_object, Conclusion, Fetch, Pipeline, StoredObject};
use imos::plan::{Item, PlanItem};
use imos::store::Store;

fn stored(key: Result<&str, &str>, has_root: bool) -> Option<StoredObject> {
    let key = match key {
        Ok(key) => Ok(key.to_owned()),
        Err(reason) => Err(reason.to_owned()),
    };
    Some(StoredObject { key, has_root })
}

#[test]
fn objects_are_checked() {
    assert!(!valid_object(b"/o", "k", true, None).unwrap());
    assert!(valid_object(b"/o", "k", true, stored(Ok("k"), true)).unwrap());
    assert!(valid_object(b"/o", "k", false, stored(Ok("k"), false)).unwrap());
    let error = |found| valid_object(b"/o", "k", true, found).unwrap_err().message();
    assert_eq!(error(stored(Err("gone"), true)), "read object key: /o: gone");
    assert_eq!(error(stored(Ok("other"), true)), "object key hash collision");
    assert_eq!(
        error(stored(Ok("k"), false)),
        "installation object is missing its root directory"
    );
}

fn item() -> Item {
    Item {
        key: "d".to_owned(),
        url: "file:///x".to_owned(),
        size: Some(3),
        digest: None,
        action: PlanItem::InstallFile { to: b"x".to_vec() },
    }
}

fn found(size: u64) -> Option<StoredDownload> {
    Some(StoredDownload {
        key: Ok("d".to_owned()),
        data: Ok(DataFile { regular: true, size }),
        contents: Some(Ok(Digester::new())),
    })
}

#[test]
fn downloads_are_fetched_once() {
    let store = Store::open(b"/s".to_vec());
    let data = format!("/s/dl/{}/data", key_name("d")).into_bytes();
    assert!(matches!(
        store.ensure_download(&item(), None),
        Fetch::Download { path } if path == data
    ));
    assert!(matches!(
        store.ensure_download(&item(), found(3)),
        Fetch::Cached { path } if path == data
    ));
    match store.ensure_download(&item(), found(4)) {
        Fetch::Refused { error } => assert_eq!(
            error.message(),
            "download key d size conflict: expected 3, got 4"
        ),
        other => panic!("{other:?}"),
    }
}

#[test]
fn operations_end_with_an_event() {
    let event = closing_event(&Ok(true));
    assert_eq!(event["event"], "completed");
    assert_eq!(event["cached"], true);
    let event = closing_event(&Ok(false));
    assert_eq!(event["cached"], false);
    let failure = Error::ReadPlan { path: b"/p".to_vec(), reason: "why".to_owned() };
    let event = closing_event(&Err(failure));
    assert_eq!(event["event"], "failed");
    assert_eq!(event["message"], "read plan file /p");
}

#[test]
fn items_are_carried_out_in_order() {
    let mut pipeline = Pipeline::new(3, false);
    assert_eq!(pipeline.next(), None);
    pipeline.arrive(2);
    assert_eq!(pipeline.next(), None);
    pipeline.arrive(0);
    assert_eq!(pipeline.next(), Some(0));
    pipeline.advance();
    assert_eq!(pipeline.next(), None);
    assert!(!pipeline.finished());
    pipeline.arrive(1);
    assert_eq!(pipeline.next(), Some(1));
    pipeline.advance();
    assert_eq!(pipeline.next(), Some(2));
    pipeline.advance();
    assert_eq!(pipeline.next(), None);
    assert!(pipeline.finished());
}

#[test]
fn the_first_item_does_not_wait_for_later_downloads() {
    let mut pipeline = Pipeline::new(2, false);
    pipeline.arrive(0);
    assert_eq!(pipeline.next(), Some(0));
}

#[test]
fn an_installation_that_exists_is_not_built() {
    let mut pipeline = Pipeline::new(2, true);
    pipeline.arrive(1);
    assert_eq!(pipeline.next(), None);
    assert!(!pipeline.finished());
    pipeline.arrive(0);
    assert_eq!(pipeline.next(), None);
    assert!(pipeline.finished());
    assert!(Pipeline::new(0, true).finished());
    assert!(Pipeline::new(0, false).finished());
}

#[test]
fn a_download_is_shared_by_key() {
    let store = Store::open(b"/s".to_vec());
    let first = match store.ensure_download(&item(), None) {
        Fetch::Download { path } => path,
        other => panic!("{other:?}"),
    };
    let mut later = item();
    later.url = "http://unreachable.invalid/other".to_owned();
    later.size = None;
    match store.ensure_download(&later, found(3)) {
        Fetch::Cached { path } => assert_eq!(path, first),
        other => panic!("{other:?}"),
    }
    assert_eq!(closing_event(&Ok(true))["cached"], true);
}

#[test]
fn installations_are_concluded() {
    let built = Pipeline::new(0, false);
    assert_eq!(built.conclude(b"/o", "k", None).unwrap(), Conclusion::Publish);
    let kept = Pipeline::new(0, true);
    assert_eq!(kept.conclude(b"/o", "k", stored(Ok("k"), true)).unwrap(), Conclusion::Keep);
    assert_eq!(kept.conclude(b"/o", "k", None).unwrap(), Conclusion::Build);
    assert_eq!(
        kept.conclude(b"/o", "k", stored(Ok("other"), true)).unwrap_err().message(),
        "object key hash collision"
    );
    assert_eq!(
        kept.conclude(b"/o", "k", stored(Ok("k"), false)).unwrap_err().message(),
        "installation object is missing its root directory"
    );
}

#[test]
fn what_is_gone_is_built_from_the_first_item_on() {
    let mut pipeline = Pipeline::new(2, true);
    pipeline.arrive(0);
    pipeline.arrive(1);
    assert_eq!(pipeline.conclude(b"/o", "k", None).unwrap(), Conclusion::Build);
    pipeline.rebuild();
    assert!(!pipeline.finished());
    assert_eq!(pipeline.next(), Some(0));
    pipeline.advance();
    assert_eq!(pipeline.next(), Some(1));
    pipeline.advance();
    assert!(pipeline.finished());
    assert_eq!(pipeline.conclude(b"/o", "k", None).unwrap(), Conclusion::Publish);
}
