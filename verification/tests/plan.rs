use imos::error::Error;
use imos::path::validate_relative_path;
use imos::plan::{
    default_current_dir, validate_digest, ArchiveKind, Item, LoadedPlan, Plan, PlanEnvelope,
    PlanItem,
};

fn install_file(key: &str, url: &str, to: &str) -> Item {
    Item {
        key: key.to_owned(),
        url: url.to_owned(),
        size: None,
        digest: None,
        action: PlanItem::InstallFile { to: to.as_bytes().to_vec() },
    }
}

fn plan(items: Vec<Item>) -> Plan {
    Plan { version: 1, key: "tool-1.0".to_owned(), items }
}

fn message(result: Result<(), Error>) -> String {
    result.unwrap_err().message()
}

#[test]
fn rejects_parent_paths() {
    assert!(validate_relative_path(b"../bin", false).is_err());
}

#[test]
fn accepts_current_unpack_destination() {
    assert!(validate_relative_path(b".", true).is_ok());
}

#[test]
fn validates_sha256_digest() {
    assert!(validate_digest(&format!("sha256:{}", "a".repeat(64))).is_ok());
    assert!(validate_digest("sha256:ABC").is_err());
}

#[test]
fn digest_errors_are_told_apart() {
    assert_eq!(message(validate_digest("md5:00")), "only sha256 digests are supported");
    assert_eq!(
        message(validate_digest("sha256:ABC")),
        "sha256 digest must contain 64 hexadecimal characters"
    );
    assert_eq!(
        message(validate_digest(&format!("sha256:{}", "A".repeat(64)))),
        "sha256 digest must use lowercase hexadecimal"
    );
    assert_eq!(
        message(validate_digest(&format!("sha256:{}", "g".repeat(64)))),
        "sha256 digest must use lowercase hexadecimal"
    );
    assert!(validate_digest(&format!("sha256:{}", "0123456789abcdef".repeat(4))).is_ok());
}

#[test]
fn accepts_a_plan_with_every_action() {
    let items = vec![
        Item {
            key: "archive".to_owned(),
            url: "https://example.invalid/tool.tar.zst".to_owned(),
            size: Some(123456),
            digest: Some(format!("sha256:{}", "0".repeat(64))),
            action: PlanItem::UnpackDir {
                kind: ArchiveKind::TarZstd,
                strip: 1,
                to: default_current_dir(),
            },
        },
        Item {
            key: "one".to_owned(),
            url: "http://example.invalid/one.tar".to_owned(),
            size: None,
            digest: None,
            action: PlanItem::UnpackFile {
                kind: ArchiveKind::Tar,
                from: b"pkg/one".to_vec(),
                to: b"share/one".to_vec(),
            },
        },
        install_file("file", "file:///srv/file.txt", "share/file.txt"),
        Item {
            key: "tool".to_owned(),
            url: "file:///srv/tool".to_owned(),
            size: None,
            digest: None,
            action: PlanItem::InstallBin { name: "tool".to_owned() },
        },
    ];
    let plan = plan(items);
    assert!(plan.validate().is_ok());
    assert_eq!(plan.download_keys(), vec!["archive", "one", "file", "tool"]);
}

#[test]
fn plan_without_items_is_accepted() {
    assert!(plan(Vec::new()).validate().is_ok());
    assert!(plan(Vec::new()).download_keys().is_empty());
}

#[test]
fn plan_errors_are_told() {
    let other = Plan { version: 2, key: String::new(), items: Vec::new() };
    assert_eq!(message(other.validate()), "unsupported plan version 2");
    let keyless = Plan { version: 1, key: String::new(), items: Vec::new() };
    assert_eq!(message(keyless.validate()), "plan key must not be empty");
    let item = install_file("", "file:///x", "x");
    assert_eq!(message(plan(vec![item]).validate()), "download key must not be empty");
}

#[test]
fn url_errors_are_told() {
    let invalid = install_file("a", "no url", "x");
    let error = plan(vec![invalid]).validate().unwrap_err();
    assert_eq!(error.summary(), "invalid download URL: no url");
    assert_eq!(error.message(), "invalid download URL: no url: relative URL without a base");
    let ftp = install_file("a", "ftp://example.invalid/x", "x");
    assert_eq!(message(plan(vec![ftp]).validate()), "unsupported download URL scheme: ftp");
}

#[test]
fn scheme_is_taken_from_the_parsed_url() {
    let item = install_file("a", "HTTPS://example.invalid/x", "x");
    assert!(item.validate().is_ok());
    assert!(item.validate_parsed(Ok("file".to_owned())).is_ok());
    assert_eq!(
        message(item.validate_parsed(Ok("data".to_owned()))),
        "unsupported download URL scheme: data"
    );
    assert_eq!(
        message(item.validate_parsed(Err("bad".to_owned()))),
        "invalid download URL: HTTPS://example.invalid/x: bad"
    );
}

#[test]
fn the_first_error_of_a_plan_is_told() {
    let items = vec![
        install_file("good", "file:///x", "x"),
        install_file("bad", "file:///x", "/etc/passwd"),
        install_file("", "file:///x", "x"),
    ];
    assert_eq!(message(plan(items).validate()), "path must be relative: /etc/passwd");
}

#[test]
fn action_paths_are_checked() {
    let from = PlanItem::UnpackFile {
        kind: ArchiveKind::Tar,
        from: b"../x".to_vec(),
        to: b"/x".to_vec(),
    };
    assert_eq!(message(from.validate()), "path contains an unsafe component: ../x");
    let to = PlanItem::UnpackFile {
        kind: ArchiveKind::Tar,
        from: b"x".to_vec(),
        to: b".".to_vec(),
    };
    assert_eq!(message(to.validate()), "path contains an unsafe component: .");
    let file = PlanItem::InstallFile { to: Vec::new() };
    assert_eq!(message(file.validate()), "path must not be empty");
    let directory = PlanItem::UnpackDir {
        kind: ArchiveKind::TarGzip,
        strip: 0,
        to: b"a//b".to_vec(),
    };
    assert_eq!(message(directory.validate()), "path contains an unsafe component: a//b");
    let nested = PlanItem::InstallBin { name: "a/b".to_owned() };
    assert_eq!(message(nested.validate()), "expected a single file name: a/b");
    let nameless = PlanItem::InstallBin { name: String::new() };
    assert_eq!(message(nameless.validate()), "file name must not be empty");
}

fn envelope(key: &str) -> PlanEnvelope {
    let mut extensions = serde_json::Map::new();
    extensions.insert("upstream".to_owned(), serde_json::Value::from(7_u64));
    PlanEnvelope {
        imos: Plan { version: 1, key: key.to_owned(), items: Vec::new() },
        extensions,
    }
}

#[test]
fn plan_files_are_read() {
    let read = PlanEnvelope::read(b"/p.json", LoadedPlan::Parsed { envelope: envelope("k") });
    let read = read.unwrap();
    assert_eq!(read.imos.key, "k");
    assert_eq!(read.extensions.get("upstream"), Some(&serde_json::Value::from(7_u64)));
}

#[test]
fn plan_file_errors_are_told() {
    let unreadable = LoadedPlan::Unreadable { reason: "denied".to_owned() };
    let error = PlanEnvelope::read(b"/p.json", unreadable).unwrap_err();
    assert_eq!(error.summary(), "read plan file /p.json");
    assert_eq!(error.message(), "read plan file /p.json: denied");
    let malformed = LoadedPlan::Malformed { reason: "eof".to_owned() };
    let error = PlanEnvelope::read(b"/p.json", malformed).unwrap_err();
    assert_eq!(error.message(), "parse plan file /p.json: eof");
    let invalid = LoadedPlan::Parsed { envelope: envelope("") };
    let error = PlanEnvelope::read(b"/p.json", invalid).unwrap_err();
    assert_eq!(error.message(), "plan key must not be empty");
}
