use imos::error::{Error, PathError};

fn reason() -> String {
    "why".to_owned()
}

fn path() -> Vec<u8> {
    b"/p".to_vec()
}

fn told(error: Error, summary: &str, detail: Option<&str>) {
    assert_eq!(error.summary(), summary);
    assert_eq!(error.detail().as_deref(), detail);
    let message = match detail {
        Some(detail) => format!("{summary}: {detail}"),
        None => summary.to_owned(),
    };
    assert_eq!(error.message(), message);
}

#[test]
fn failures_with_a_cause_are_told_with_it() {
    told(
        Error::OpenLock { path: path(), reason: reason() },
        "open lock file /p",
        Some("why"),
    );
    told(
        Error::AcquireLock { path: path(), reason: reason() },
        "acquire lock /p",
        Some("why"),
    );
    told(
        Error::CreateRoot { path: path(), reason: reason() },
        "create store root /p",
        Some("why"),
    );
    told(
        Error::CreateStoreDirectory { name: "dl".to_owned(), reason: reason() },
        "create store directory dl",
        Some("why"),
    );
    told(
        Error::OpenSource { path: path(), reason: reason() },
        "open download source /p",
        Some("why"),
    );
    told(
        Error::FetchUrl { url: "http://x".to_owned(), reason: reason() },
        "download http://x",
        Some("why"),
    );
    told(
        Error::CreateDownload { path: path(), reason: reason() },
        "create temporary download /p",
        Some("why"),
    );
    told(
        Error::TargetConflict { path: path(), reason: reason() },
        "installation target conflict: /p",
        Some("why"),
    );
    told(
        Error::PublishInstallation { path: path(), reason: reason() },
        "publish installation /p",
        Some("why"),
    );
    told(
        Error::PublishDownload { path: path(), reason: reason() },
        "publish download object /p",
        Some("why"),
    );
    told(
        Error::PlanMetadata { path: path(), reason: reason() },
        "read plan metadata /p",
        Some("why"),
    );
    told(
        Error::ReadObjectKey { path: path(), reason: reason() },
        "read object key: /p",
        Some("why"),
    );
    told(
        Error::LinkFailed { inode: "7".to_owned(), reason: reason() },
        "register plan inode 7",
        Some("why"),
    );
    told(
        Error::UnsafeArchivePath { path: b"x\0".to_vec(), cause: PathError::Nul },
        "archive contains an unsafe path: x\0",
        Some("path must not contain NUL"),
    );
}

#[test]
fn other_failures_are_told_alone() {
    told(Error::Failed { reason: reason() }, "why", None);
    told(Error::PlanRemoved, "upstream plan file was removed", None);
    told(Error::InodeTaken, "request inode path is already bound to another file", None);
    told(Error::Path { cause: PathError::NotUtf8 }, "path must be valid UTF-8", None);
    told(Error::MissingEntry { path: b"a\xff".to_vec() }, "archive does not contain file: a\u{fffd}", None);
}
