use imos::archive::Step;
use imos::artifact::{
    choose_source, close_installation, create_directory, download_source, execute_item,
    execute_named_item, execute_plan, name_failure, object_data, open_installation,
    verify_download, Artifact, DataFile, Download, Source, StoredDownload,
};
use imos::digest::Digester;
use imos::error::Error;
use imos::plan::{ArchiveKind, Item, Plan, PlanItem};

const ABC: &str = "sha256:ba7816bf8f01cfea414140de5dae2223b00361a396177a9cb410ff61f20015ad";

fn item(url: &str, size: Option<u64>, digest: Option<&str>) -> Item {
    Item {
        key: "dl".to_owned(),
        url: url.to_owned(),
        size,
        digest: digest.map(str::to_owned),
        action: PlanItem::InstallFile { to: b"x".to_vec() },
    }
}

fn acting(key: &str, action: PlanItem) -> Item {
    Item {
        key: key.to_owned(),
        url: "file:///srv/x".to_owned(),
        size: None,
        digest: None,
        action,
    }
}

fn stored(key: &str, size: u64, contents: &[u8]) -> StoredDownload {
    let mut digester = Digester::new();
    digester.update(contents);
    StoredDownload {
        key: Ok(key.to_owned()),
        data: Ok(DataFile { regular: true, size }),
        contents: Some(Ok(digester)),
    }
}

fn refused(item: &Item, stored: StoredDownload) -> String {
    verify_download(b"/s/dl/n", item, stored).unwrap_err().message()
}

#[test]
fn stored_downloads_are_accepted() {
    let wanted = item("file:///x", Some(3), Some(ABC));
    let path = verify_download(b"/s/dl/n", &wanted, stored("dl", 3, b"abc")).unwrap();
    assert_eq!(path, b"/s/dl/n/data".to_vec());
    let any = item("file:///x", None, None);
    assert!(verify_download(b"/s/dl/n", &any, stored("dl", 9, b"other")).is_ok());
}

#[test]
fn stored_downloads_are_refused() {
    let wanted = item("file:///x", Some(3), Some(ABC));
    let mut unreadable = stored("dl", 3, b"abc");
    unreadable.key = Err("gone".to_owned());
    assert_eq!(refused(&wanted, unreadable), "read download object key: /s/dl/n: gone");
    assert_eq!(refused(&wanted, stored("other", 3, b"abc")), "download key hash collision");
    let mut dataless = stored("dl", 3, b"abc");
    dataless.data = Err("gone".to_owned());
    assert_eq!(refused(&wanted, dataless), "read download object: /s/dl/n/data: gone");
    let mut directory = stored("dl", 3, b"abc");
    directory.data = Ok(DataFile { regular: false, size: 3 });
    assert_eq!(refused(&wanted, directory), "download object is not a regular file");
    assert_eq!(
        refused(&wanted, stored("dl", 4, b"abc")),
        "download key dl size conflict: expected 3, got 4"
    );
    assert_eq!(
        refused(&wanted, stored("dl", 3, b"")),
        format!(
            "download key dl digest conflict: expected {ABC}, got \
             sha256:e3b0c44298fc1c149afbf4c8996fb92427ae41e4649b934ca495991b7852b855"
        )
    );
    let mut broken = stored("dl", 3, b"abc");
    broken.contents = Some(Err("i/o".to_owned()));
    assert_eq!(refused(&wanted, broken), "i/o");
}

#[test]
fn downloads_come_from_files_and_the_network() {
    let local = download_source(&item("file:///srv/a%20b", None, None)).unwrap();
    assert!(matches!(local, Source::Local { path } if path == b"/srv/a b".to_vec()));
    let remote = download_source(&item("https://example.invalid/x", None, None)).unwrap();
    assert!(matches!(remote, Source::Remote { url } if url == "https://example.invalid/x"));
}

#[test]
fn unusable_sources_are_told() {
    let error = |url: &str| download_source(&item(url, None, None)).unwrap_err().message();
    assert_eq!(error("nothing"), "relative URL without a base");
    assert_eq!(error("ftp://example.invalid/x"), "unsupported download URL scheme: ftp");
    assert_eq!(error("file://host/x"), "invalid file URL: file://host/x");
}

#[test]
fn the_source_follows_the_parsed_url() {
    let url = "some url".to_owned();
    let local = choose_source(&url, Ok("file".to_owned()), Some(b"/p".to_vec())).unwrap();
    assert!(matches!(local, Source::Local { path } if path == b"/p".to_vec()));
    let remote = choose_source(&url, Ok("http".to_owned()), None).unwrap();
    assert!(matches!(remote, Source::Remote { url } if url == "some url"));
    let error = choose_source(&url, Ok("file".to_owned()), None).unwrap_err();
    assert_eq!(error.message(), "invalid file URL: some url");
    let error = choose_source(&url, Err("why".to_owned()), None).unwrap_err();
    assert_eq!(error.message(), "why");
}

#[test]
fn progress_is_told_once_in_a_while() {
    let wanted = item("file:///x", Some(3 << 20), None);
    let mut download = Download::new();
    let chunk = vec![0_u8; 1 << 19];
    assert!(download.receive(&wanted, &chunk).is_none());
    let event = download.receive(&wanted, &chunk).unwrap();
    assert_eq!(event["event"], "download");
    assert_eq!(event["dl_key"], "dl");
    assert_eq!(event["current"], 1 << 20);
    assert_eq!(event["total"], 3 << 20);
    assert!(download.receive(&wanted, &chunk).is_none());
    assert!(download.receive(&wanted, &chunk).is_some());
    assert!(download.receive(&wanted, b"").is_none());
}

#[test]
fn complete_downloads_are_accepted() {
    let wanted = item("file:///x", Some(3), Some(ABC));
    let mut download = Download::new();
    assert!(download.receive(&wanted, b"ab").is_none());
    assert!(download.receive(&wanted, b"c").is_none());
    let event = download.finish(&wanted).unwrap();
    assert_eq!(event["event"], "downloaded");
    assert_eq!(event["dl_key"], "dl");
    assert_eq!(event["size"], 3);
    assert_eq!(event["digest"], ABC);
}

#[test]
fn mismatches_are_told() {
    let sized = item("file:///x", Some(4), Some(ABC));
    let mut download = Download::new();
    download.receive(&sized, b"abc");
    assert_eq!(
        download.finish(&sized).unwrap_err().message(),
        "download key dl size mismatch: expected 4, got 3"
    );
    let digested = item("file:///x", None, Some(ABC));
    assert_eq!(
        Download::new().finish(&digested).unwrap_err().message(),
        format!(
            "download key dl digest mismatch: expected {ABC}, got \
             sha256:e3b0c44298fc1c149afbf4c8996fb92427ae41e4649b934ca495991b7852b855"
        )
    );
}

#[test]
fn an_accepted_download_verifies_later() {
    let wanted = item("file:///x", Some(3), Some(ABC));
    let mut download = Download::new();
    download.receive(&wanted, b"abc");
    assert!(download.finish(&wanted).is_ok());
    assert!(verify_download(b"/o", &wanted, stored("dl", 3, b"abc")).is_ok());
    assert!(verify_download(b"/o", &wanted, stored("dl", 3, b"abd")).is_err());
}

fn artifact(data: &[u8]) -> Artifact {
    Artifact { path: b"/s/data".to_vec(), data: data.to_vec() }
}

fn copied(step: &Step) -> (Vec<u8>, Vec<u8>, u32) {
    match step {
        Step::CopyNew { from, to, mode } => (from.clone(), to.clone(), *mode),
        other => panic!("{other:?}"),
    }
}

#[test]
fn files_and_executables_are_copied() {
    let file = acting("f", PlanItem::InstallFile { to: b"share/f".to_vec() });
    assert!(!file.action.needs_contents());
    let work = execute_item(&file, &artifact(b""), b"/r");
    assert!(work.failure.is_none());
    assert_eq!(work.steps.len(), 1);
    assert_eq!(
        copied(&work.steps[0]),
        (b"/s/data".to_vec(), b"/r/share/f".to_vec(), 0o644)
    );
    let bin = acting("b", PlanItem::InstallBin { name: "tool".to_owned() });
    assert!(!bin.action.needs_contents());
    let work = execute_item(&bin, &artifact(b""), b"/r");
    assert_eq!(
        copied(&work.steps[0]),
        (b"/s/data".to_vec(), b"/r/bin/tool".to_vec(), 0o755)
    );
}

fn tar_of(path: &str, contents: &[u8]) -> Vec<u8> {
    let mut header = tar::Header::new_gnu();
    header.set_size(contents.len() as u64);
    header.set_mode(0o644);
    let mut builder = tar::Builder::new(Vec::new());
    builder.append_data(&mut header, path, contents).unwrap();
    builder.into_inner().unwrap()
}

#[test]
fn archives_go_to_the_root_or_below_it() {
    let data = tar_of("a/b", b"1");
    let unpack = |to: &[u8]| {
        let action = PlanItem::UnpackDir { kind: ArchiveKind::Tar, strip: 1, to: to.to_vec() };
        assert!(action.needs_contents());
        execute_item(&acting("u", action), &artifact(&data), b"/r")
    };
    let work = unpack(b".");
    assert!(matches!(&work.steps[1], Step::WriteNew { to, .. } if to == b"/r/b"));
    let work = unpack(b"opt/x");
    assert!(matches!(&work.steps[0], Step::CreateTree { path } if path == b"/r/opt/x"));
    assert!(matches!(&work.steps[1], Step::WriteNew { to, .. } if to == b"/r/opt/x/b"));
    let action = PlanItem::UnpackFile {
        kind: ArchiveKind::Tar,
        from: b"a/b".to_vec(),
        to: b"x".to_vec(),
    };
    assert!(action.needs_contents());
    let work = execute_item(&acting("u", action), &artifact(&data), b"/r");
    assert!(matches!(&work.steps[0], Step::WriteNew { to, .. } if to == b"/r/x"));
}

#[test]
fn plans_are_carried_out_in_order() {
    let plan = Plan {
        version: 1,
        key: "p".to_owned(),
        items: vec![
            acting("f", PlanItem::InstallFile { to: b"f".to_vec() }),
            acting("b", PlanItem::InstallBin { name: "b".to_owned() }),
        ],
    };
    let work = execute_plan(&plan, &vec![artifact(b""), artifact(b"")], b"/r");
    assert!(work.failure.is_none());
    assert_eq!(work.steps.len(), 5);
    assert!(matches!(&work.steps[0], Step::CreateTree { path } if path == b"/r"));
    assert!(matches!(&work.steps[1], Step::SetMode { path, mode: 0o755 } if path == b"/r"));
    assert_eq!(copied(&work.steps[2]).1, b"/r/f".to_vec());
    assert_eq!(copied(&work.steps[3]).1, b"/r/bin/b".to_vec());
    assert!(matches!(&work.steps[4], Step::Normalize { path, mode: 0o755 } if path == b"/r"));
}

#[test]
fn plans_stop_at_the_first_failure() {
    let broken = PlanItem::UnpackFile {
        kind: ArchiveKind::Tar,
        from: b"missing".to_vec(),
        to: b"x".to_vec(),
    };
    let plan = Plan {
        version: 1,
        key: "p".to_owned(),
        items: vec![
            acting("one", broken),
            acting("two", PlanItem::InstallFile { to: b"f".to_vec() }),
        ],
    };
    let data = tar_of("a", b"1");
    let work = execute_plan(&plan, &vec![artifact(&data), artifact(b"")], b"/r");
    assert_eq!(work.steps.len(), 2);
    let failure = work.failure.unwrap();
    assert_eq!(failure.summary(), "execute plan item one");
    assert_eq!(
        failure.message(),
        "execute plan item one: archive does not contain file: missing"
    );
}

#[test]
fn downloads_have_to_fit_the_plan() {
    let plan = Plan { version: 1, key: "p".to_owned(), items: Vec::new() };
    let work = execute_plan(&plan, &vec![artifact(b"")], b"/r");
    assert!(work.steps.is_empty());
    assert_eq!(
        work.failure.unwrap().message(),
        "plan download count does not match item count"
    );
}

#[test]
fn directories_are_created_where_nothing_is() {
    assert!(create_directory(b"/r/d", false, false).unwrap());
    assert!(!create_directory(b"/r/d", true, true).unwrap());
    assert_eq!(
        create_directory(b"/r/d", true, false).unwrap_err().message(),
        "installation target type conflict: /r/d"
    );
}

#[test]
fn a_plan_can_be_carried_out_piece_by_piece() {
    let first = || acting("f", PlanItem::InstallFile { to: b"f".to_vec() });
    let second = || acting("b", PlanItem::InstallBin { name: "b".to_owned() });
    let plan = Plan { version: 1, key: "p".to_owned(), items: vec![first(), second()] };
    let whole = execute_plan(&plan, &vec![artifact(b""), artifact(b"")], b"/r");
    let mut pieces = open_installation(b"/r").steps;
    pieces.extend(execute_named_item(&first(), &artifact(b""), b"/r").steps);
    pieces.extend(execute_named_item(&second(), &artifact(b""), b"/r").steps);
    pieces.extend(close_installation(b"/r").steps);
    assert_eq!(format!("{pieces:?}"), format!("{:?}", whole.steps));
}

#[test]
fn failures_of_items_name_them() {
    let action = PlanItem::UnpackDir {
        kind: ArchiveKind::Tar,
        strip: 0,
        to: b".".to_vec(),
    };
    let work = execute_named_item(&acting("u", action), &artifact(b"no archive"), b"/r");
    assert_eq!(work.failure.unwrap().summary(), "execute plan item u");
    let conflict = Error::TargetConflict { path: b"/r/x".to_vec(), reason: "exists".to_owned() };
    let item = acting("f", PlanItem::InstallFile { to: b"x".to_vec() });
    assert_eq!(
        name_failure(&item, &conflict).message(),
        "execute plan item f: installation target conflict: /r/x: exists"
    );
    assert_eq!(object_data(b"/o"), b"/o/data".to_vec());
}

#[test]
fn accepted_items_stay_within_the_root() {
    let below = |path: &Vec<u8>| path == b"/r" || path.starts_with(b"/r/");
    let data = tar_of("a/b/c", b"1");
    for to in [&b"."[..], b"x/y"] {
        let action = PlanItem::UnpackDir { kind: ArchiveKind::Tar, strip: 1, to: to.to_vec() };
        assert!(action.validate().is_ok());
        let work = execute_item(&acting("u", action), &artifact(&data), b"/r");
        assert_eq!(work.steps.len(), 2);
        for step in &work.steps {
            match step {
                Step::CreateTree { path } => assert!(below(path)),
                Step::WriteNew { to, .. } => assert!(below(to)),
                other => panic!("{other:?}"),
            }
        }
    }
}
