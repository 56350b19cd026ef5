//! What can be wrong with a plan, an artifact or a store, and how it is told.

use vstd::prelude::*;

use crate::text::{decimal_text, lossy};

verus! {

use crate::text::{decimal, lossy_text};

/// Why a path is not acceptable as a relative path.
#[derive(Debug)]
pub enum PathError {
    /// The path is empty.
    Empty,
    /// The path starts at the root.
    Absolute { path: Vec<u8> },
    /// The path is no UTF-8.
    NotUtf8,
    /// The path holds a NUL byte.
    Nul,
    /// A part of the path is empty, `.` or `..`.
    Unsafe { path: Vec<u8> },
}

/// The mathematical form of [`PathError`].
pub enum PathErrorView {
    Empty,
    Absolute { path: Seq<u8> },
    NotUtf8,
    Nul,
    Unsafe { path: Seq<u8> },
}

impl View for PathError {
    type V = PathErrorView;

    open spec fn view(&self) -> PathErrorView {
        match self {
            PathError::Empty => PathErrorView::Empty,
            PathError::Absolute { path } => PathErrorView::Absolute { path: path@ },
            PathError::NotUtf8 => PathErrorView::NotUtf8,
            PathError::Nul => PathErrorView::Nul,
            PathError::Unsafe { path } => PathErrorView::Unsafe { path: path@ },
        }
    }
}

/// How a path error is told.
pub open spec fn path_message(error: PathErrorView) -> Seq<char> {
    match error {
        PathErrorView::Empty => "path must not be empty"@,
        PathErrorView::Absolute { path } => "path must be relative: "@ + lossy_text(path),
        PathErrorView::NotUtf8 => "path must be valid UTF-8"@,
        PathErrorView::Nul => "path must not contain NUL"@,
        PathErrorView::Unsafe { path } => "path contains an unsafe component: "@ + lossy_text(path),
    }
}

impl PathError {
    /// Tells the error.
    pub fn message(&self) -> (text: String)
        ensures
            text@ == path_message(self@),
    {
        match self {
            PathError::Empty => "path must not be empty".to_owned(),
            PathError::Absolute { path } => {
                let mut text = "path must be relative: ".to_owned();
                text.append(lossy(path.as_slice()).as_str());
                text
            },
            PathError::NotUtf8 => "path must be valid UTF-8".to_owned(),
            PathError::Nul => "path must not contain NUL".to_owned(),
            PathError::Unsafe { path } => {
                let mut text = "path contains an unsafe component: ".to_owned();
                text.append(lossy(path.as_slice()).as_str());
                text
            },
        }
    }
}

/// Why an operation is refused.
#[derive(Debug)]
pub enum Error {
    /// A plan of a version other than 1.
    UnsupportedVersion { version: u32 },
    /// A plan without a key.
    EmptyPlanKey,
    /// An item without a download key.
    EmptyDownloadKey,
    /// A download URL that does not parse.
    InvalidUrl { url: String, reason: String },
    /// A download URL of a scheme other than `http`, `https` and `file`.
    UnsupportedScheme { scheme: String },
    /// A digest that does not start with `sha256:`.
    DigestAlgorithm,
    /// A digest of the wrong length.
    DigestLength,
    /// A digest with a character that is no lowercase hexadecimal digit.
    DigestAlphabet,
    /// A path that a plan may not name.
    Path { cause: PathError },
    /// An empty file name.
    EmptyFileName,
    /// A file name with more than one component.
    NotSingleName { name: String },
    /// A download object that holds another key.
    DownloadKeyCollision,
    /// A download object whose data is no regular file.
    DownloadNotFile,
    /// A stored download of another size than the item asks for.
    SizeConflict { key: String, expected_size: u64, actual_size: u64 },
    /// A stored download of another digest than the item asks for.
    DigestConflict { key: String, expected_digest: String, actual_digest: String },
    /// A URL that does not parse when its download starts.
    UnparsedUrl { reason: String },
    /// A `file` URL that names no local path.
    InvalidFileUrl { url: String },
    /// A finished download of another size than the item asks for.
    SizeMismatch { key: String, expected_size: u64, actual_size: u64 },
    /// A finished download of another digest than the item asks for.
    DigestMismatch { key: String, expected_digest: String, actual_digest: String },
    /// An archive entry whose path could leave the target.
    UnsafeArchivePath { path: Vec<u8>, cause: PathError },
    /// An archive entry that is neither a directory nor a regular file.
    UnsupportedEntry { path: Vec<u8> },
    /// A second archive entry for the wanted file.
    DuplicateEntry { path: Vec<u8> },
    /// The wanted archive entry is a directory.
    EntryNotFile,
    /// An archive without the wanted file.
    MissingEntry { path: Vec<u8> },
    /// An archive that cannot be decoded to its end.
    UnreadableArchive { reason: String },
    /// An installation target that is no entry of a directory.
    TargetWithoutParent,
    /// A directory entry where something else is installed already.
    TypeConflict { path: Vec<u8> },
    /// A plan path that names no regular file.
    PlanNotFile,
    /// A plan file on another device than the store.
    OtherFileSystem,
    /// A new plan file that already has several links.
    LinkCount,
    /// A request path that holds another file.
    InodeTaken,
    /// A hard link that could not be made.
    LinkFailed { inode: String, reason: String },
    /// A plan path that names another file than at the start.
    PlanReplaced,
    /// A plan file that changed during registration.
    PlanModified,
    /// A plan file whose outer link is gone.
    PlanRemoved,
    /// An inode that already stands for another plan key.
    PlanKeyConflict,
    /// An installation object that holds another key.
    ObjectKeyCollision,
    /// An installation object without its root.
    MissingRoot,
    /// A failure of the file system, as it was reported.
    Failed { reason: String },
    /// A plan file that cannot be read.
    ReadPlan { path: Vec<u8>, reason: String },
    /// A plan file that holds no plan.
    ParsePlan { path: Vec<u8>, reason: String },
    /// A plan file that cannot be inspected.
    PlanMetadata { path: Vec<u8>, reason: String },
    /// A download object whose key cannot be read.
    ReadDownloadKey { path: Vec<u8>, reason: String },
    /// A download object whose data cannot be inspected.
    ReadDownload { path: Vec<u8>, reason: String },
    /// An installation object whose key cannot be read.
    ReadObjectKey { path: Vec<u8>, reason: String },
    /// A list of downloads that does not fit the plan.
    DownloadCount,
    /// An item of a plan that could not be carried out.
    ExecuteItem { key: String, cause_text: String },
    /// A lock that could not be taken.
    AcquireLock { path: Vec<u8>, reason: String },
    /// An output that nothing can be written to any more.
    OutputClosed,
    /// A lock file that cannot be opened.
    OpenLock { path: Vec<u8>, reason: String },
    /// A store root that cannot be created.
    CreateRoot { path: Vec<u8>, reason: String },
    /// A directory of the store that cannot be created.
    CreateStoreDirectory { name: String, reason: String },
    /// A local download source that cannot be opened.
    OpenSource { path: Vec<u8>, reason: String },
    /// A URL that cannot be fetched.
    FetchUrl { url: String, reason: String },
    /// A temporary download that cannot be created.
    CreateDownload { path: Vec<u8>, reason: String },
    /// An installation target where something is already.
    TargetConflict { path: Vec<u8>, reason: String },
    /// An installation that cannot be put in its place.
    PublishInstallation { path: Vec<u8>, reason: String },
    /// A download that cannot be put in its place.
    PublishDownload { path: Vec<u8>, reason: String },
}

/// The mathematical form of [`Error`].
pub enum ErrorView {
    UnsupportedVersion { version: u32 },
    EmptyPlanKey,
    EmptyDownloadKey,
    InvalidUrl { url: Seq<char>, reason: Seq<char> },
    UnsupportedScheme { scheme: Seq<char> },
    DigestAlgorithm,
    DigestLength,
    DigestAlphabet,
    Path { cause: PathErrorView },
    EmptyFileName,
    NotSingleName { name: Seq<char> },
    DownloadKeyCollision,
    DownloadNotFile,
    SizeConflict { key: Seq<char>, expected_size: u64, actual_size: u64 },
    DigestConflict { key: Seq<char>, expected_digest: Seq<char>, actual_digest: Seq<char> },
    UnparsedUrl { reason: Seq<char> },
    InvalidFileUrl { url: Seq<char> },
    SizeMismatch { key: Seq<char>, expected_size: u64, actual_size: u64 },
    DigestMismatch { key: Seq<char>, expected_digest: Seq<char>, actual_digest: Seq<char> },
    UnsafeArchivePath { path: Seq<u8>, cause: PathErrorView },
    UnsupportedEntry { path: Seq<u8> },
    DuplicateEntry { path: Seq<u8> },
    EntryNotFile,
    MissingEntry { path: Seq<u8> },
    UnreadableArchive { reason: Seq<char> },
    TargetWithoutParent,
    TypeConflict { path: Seq<u8> },
    PlanNotFile,
    OtherFileSystem,
    LinkCount,
    InodeTaken,
    LinkFailed { inode: Seq<char>, reason: Seq<char> },
    PlanReplaced,
    PlanModified,
    PlanRemoved,
    PlanKeyConflict,
    ObjectKeyCollision,
    MissingRoot,
    Failed { reason: Seq<char> },
    ReadPlan { path: Seq<u8>, reason: Seq<char> },
    ParsePlan { path: Seq<u8>, reason: Seq<char> },
    PlanMetadata { path: Seq<u8>, reason: Seq<char> },
    ReadDownloadKey { path: Seq<u8>, reason: Seq<char> },
    ReadDownload { path: Seq<u8>, reason: Seq<char> },
    ReadObjectKey { path: Seq<u8>, reason: Seq<char> },
    DownloadCount,
    ExecuteItem { key: Seq<char>, cause_text: Seq<char> },
    AcquireLock { path: Seq<u8>, reason: Seq<char> },
    OutputClosed,
    OpenLock { path: Seq<u8>, reason: Seq<char> },
    CreateRoot { path: Seq<u8>, reason: Seq<char> },
    CreateStoreDirectory { name: Seq<char>, reason: Seq<char> },
    OpenSource { path: Seq<u8>, reason: Seq<char> },
    FetchUrl { url: Seq<char>, reason: Seq<char> },
    CreateDownload { path: Seq<u8>, reason: Seq<char> },
    TargetConflict { path: Seq<u8>, reason: Seq<char> },
    PublishInstallation { path: Seq<u8>, reason: Seq<char> },
    PublishDownload { path: Seq<u8>, reason: Seq<char> },
}

impl View for Error {
    type V = ErrorView;

    open spec fn view(&self) -> ErrorView {
        match self {
            Error::UnsupportedVersion { version } => ErrorView::UnsupportedVersion {
                version: *version,
            },
            Error::EmptyPlanKey => ErrorView::EmptyPlanKey,
            Error::EmptyDownloadKey => ErrorView::EmptyDownloadKey,
            Error::InvalidUrl { url, reason } => ErrorView::InvalidUrl {
                url: url@,
                reason: reason@,
            },
            Error::UnsupportedScheme { scheme } => ErrorView::UnsupportedScheme { scheme: scheme@ },
            Error::DigestAlgorithm => ErrorView::DigestAlgorithm,
            Error::DigestLength => ErrorView::DigestLength,
            Error::DigestAlphabet => ErrorView::DigestAlphabet,
            Error::Path { cause } => ErrorView::Path { cause: cause@ },
            Error::EmptyFileName => ErrorView::EmptyFileName,
            Error::NotSingleName { name } => ErrorView::NotSingleName { name: name@ },
            Error::DownloadKeyCollision => ErrorView::DownloadKeyCollision,
            Error::DownloadNotFile => ErrorView::DownloadNotFile,
            Error::SizeConflict { key, expected_size, actual_size } => ErrorView::SizeConflict {
                key: key@,
                expected_size: *expected_size,
                actual_size: *actual_size,
            },
            Error::DigestConflict { key, expected_digest, actual_digest } => ErrorView::DigestConflict {
                key: key@,
                expected_digest: expected_digest@,
                actual_digest: actual_digest@,
            },
            Error::UnparsedUrl { reason } => ErrorView::UnparsedUrl { reason: reason@ },
            Error::InvalidFileUrl { url } => ErrorView::InvalidFileUrl { url: url@ },
            Error::SizeMismatch { key, expected_size, actual_size } => ErrorView::SizeMismatch {
                key: key@,
                expected_size: *expected_size,
                actual_size: *actual_size,
            },
            Error::DigestMismatch { key, expected_digest, actual_digest } => ErrorView::DigestMismatch {
                key: key@,
                expected_digest: expected_digest@,
                actual_digest: actual_digest@,
            },
            Error::UnsafeArchivePath { path, cause } => ErrorView::UnsafeArchivePath {
                path: path@,
                cause: cause@,
            },
            Error::UnsupportedEntry { path } => ErrorView::UnsupportedEntry { path: path@ },
            Error::DuplicateEntry { path } => ErrorView::DuplicateEntry { path: path@ },
            Error::EntryNotFile => ErrorView::EntryNotFile,
            Error::MissingEntry { path } => ErrorView::MissingEntry { path: path@ },
            Error::UnreadableArchive { reason } => ErrorView::UnreadableArchive { reason: reason@ },
            Error::TargetWithoutParent => ErrorView::TargetWithoutParent,
            Error::TypeConflict { path } => ErrorView::TypeConflict { path: path@ },
            Error::PlanNotFile => ErrorView::PlanNotFile,
            Error::OtherFileSystem => ErrorView::OtherFileSystem,
            Error::LinkCount => ErrorView::LinkCount,
            Error::InodeTaken => ErrorView::InodeTaken,
            Error::LinkFailed { inode, reason } => ErrorView::LinkFailed {
                inode: inode@,
                reason: reason@,
            },
            Error::PlanReplaced => ErrorView::PlanReplaced,
            Error::PlanModified => ErrorView::PlanModified,
            Error::PlanRemoved => ErrorView::PlanRemoved,
            Error::PlanKeyConflict => ErrorView::PlanKeyConflict,
            Error::ObjectKeyCollision => ErrorView::ObjectKeyCollision,
            Error::MissingRoot => ErrorView::MissingRoot,
            Error::Failed { reason } => ErrorView::Failed { reason: reason@ },
            Error::ReadPlan { path, reason } => ErrorView::ReadPlan {
                path: path@,
                reason: reason@,
            },
            Error::ParsePlan { path, reason } => ErrorView::ParsePlan {
                path: path@,
                reason: reason@,
            },
            Error::PlanMetadata { path, reason } => ErrorView::PlanMetadata {
                path: path@,
                reason: reason@,
            },
            Error::ReadDownloadKey { path, reason } => ErrorView::ReadDownloadKey {
                path: path@,
                reason: reason@,
            },
            Error::ReadDownload { path, reason } => ErrorView::ReadDownload {
                path: path@,
                reason: reason@,
            },
            Error::ReadObjectKey { path, reason } => ErrorView::ReadObjectKey {
                path: path@,
                reason: reason@,
            },
            Error::DownloadCount => ErrorView::DownloadCount,
            Error::OutputClosed => ErrorView::OutputClosed,
            Error::ExecuteItem { key, cause_text } => ErrorView::ExecuteItem {
                key: key@,
                cause_text: cause_text@,
            },
            Error::AcquireLock { path, reason } => ErrorView::AcquireLock {
                path: path@,
                reason: reason@,
            },
            Error::OpenLock { path, reason } => ErrorView::OpenLock {
                path: path@,
                reason: reason@,
            },
            Error::CreateRoot { path, reason } => ErrorView::CreateRoot {
                path: path@,
                reason: reason@,
            },
            Error::CreateStoreDirectory { name, reason } => ErrorView::CreateStoreDirectory {
                name: name@,
                reason: reason@,
            },
            Error::OpenSource { path, reason } => ErrorView::OpenSource {
                path: path@,
                reason: reason@,
            },
            Error::FetchUrl { url, reason } => ErrorView::FetchUrl { url: url@, reason: reason@ },
            Error::CreateDownload { path, reason } => ErrorView::CreateDownload {
                path: path@,
                reason: reason@,
            },
            Error::TargetConflict { path, reason } => ErrorView::TargetConflict {
                path: path@,
                reason: reason@,
            },
            Error::PublishInstallation { path, reason } => ErrorView::PublishInstallation {
                path: path@,
                reason: reason@,
            },
            Error::PublishDownload { path, reason } => ErrorView::PublishDownload {
                path: path@,
                reason: reason@,
            },
        }
    }
}

/// The outermost line of an error.
pub open spec fn error_summary(error: ErrorView) -> Seq<char> {
    match error {
        ErrorView::UnsupportedVersion { version } => "unsupported plan version "@
            + decimal(version as nat),
        ErrorView::EmptyPlanKey => "plan key must not be empty"@,
        ErrorView::EmptyDownloadKey => "download key must not be empty"@,
        ErrorView::InvalidUrl { url, .. } => "invalid download URL: "@ + url,
        ErrorView::UnsupportedScheme { scheme } => "unsupported download URL scheme: "@ + scheme,
        ErrorView::DigestAlgorithm => "only sha256 digests are supported"@,
        ErrorView::DigestLength => "sha256 digest must contain 64 hexadecimal characters"@,
        ErrorView::DigestAlphabet => "sha256 digest must use lowercase hexadecimal"@,
        ErrorView::Path { cause } => path_message(cause),
        ErrorView::EmptyFileName => "file name must not be empty"@,
        ErrorView::NotSingleName { name } => "expected a single file name: "@ + name,
        ErrorView::DownloadKeyCollision => "download key hash collision"@,
        ErrorView::DownloadNotFile => "download object is not a regular file"@,
        ErrorView::SizeConflict { key, expected_size, actual_size } => "download key "@ + key
            + " size conflict: expected "@ + decimal(expected_size as nat) + ", got "@
            + decimal(actual_size as nat),
        ErrorView::DigestConflict { key, expected_digest, actual_digest } => "download key "@ + key
            + " digest conflict: expected "@ + expected_digest + ", got "@ + actual_digest,
        ErrorView::UnparsedUrl { reason } => reason,
        ErrorView::InvalidFileUrl { url } => "invalid file URL: "@ + url,
        ErrorView::SizeMismatch { key, expected_size, actual_size } => "download key "@ + key
            + " size mismatch: expected "@ + decimal(expected_size as nat) + ", got "@
            + decimal(actual_size as nat),
        ErrorView::DigestMismatch { key, expected_digest, actual_digest } => "download key "@ + key
            + " digest mismatch: expected "@ + expected_digest + ", got "@ + actual_digest,
        ErrorView::UnsafeArchivePath { path, .. } => "archive contains an unsafe path: "@
            + lossy_text(path),
        ErrorView::UnsupportedEntry { path } => "archive contains an unsupported entry type: "@
            + lossy_text(path),
        ErrorView::DuplicateEntry { path } => "archive contains duplicate path: "@
            + lossy_text(path),
        ErrorView::EntryNotFile => "archive entry is not a regular file"@,
        ErrorView::MissingEntry { path } => "archive does not contain file: "@ + lossy_text(path),
        ErrorView::UnreadableArchive { reason } => reason,
        ErrorView::TargetWithoutParent => "installation target has no parent directory"@,
        ErrorView::TypeConflict { path } => "installation target type conflict: "@
            + lossy_text(path),
        ErrorView::PlanNotFile => "plan must be a regular file"@,
        ErrorView::OtherFileSystem => "plan file and store must be on the same file system"@,
        ErrorView::LinkCount => "a new plan file must have exactly one link"@,
        ErrorView::InodeTaken => "request inode path is already bound to another file"@,
        ErrorView::LinkFailed { inode, .. } => "register plan inode "@ + inode,
        ErrorView::PlanReplaced => "plan file was replaced while being registered"@,
        ErrorView::PlanModified => "plan file was modified while create was running"@,
        ErrorView::PlanRemoved => "upstream plan file was removed"@,
        ErrorView::PlanKeyConflict => "request inode is already bound to another plan key"@,
        ErrorView::ObjectKeyCollision => "object key hash collision"@,
        ErrorView::MissingRoot => "installation object is missing its root directory"@,
        ErrorView::Failed { reason } => reason,
        ErrorView::ReadPlan { path, .. } => "read plan file "@ + lossy_text(path),
        ErrorView::ParsePlan { path, .. } => "parse plan file "@ + lossy_text(path),
        ErrorView::PlanMetadata { path, .. } => "read plan metadata "@ + lossy_text(path),
        ErrorView::ReadDownloadKey { path, .. } => "read download object key: "@ + lossy_text(path),
        ErrorView::ReadDownload { path, .. } => "read download object: "@ + lossy_text(path),
        ErrorView::ReadObjectKey { path, .. } => "read object key: "@ + lossy_text(path),
        ErrorView::DownloadCount => "plan download count does not match item count"@,
        ErrorView::OutputClosed => "output is closed"@,
        ErrorView::ExecuteItem { key, .. } => "execute plan item "@ + key,
        ErrorView::AcquireLock { path, .. } => "acquire lock "@ + lossy_text(path),
        ErrorView::OpenLock { path, .. } => "open lock file "@ + lossy_text(path),
        ErrorView::CreateRoot { path, .. } => "create store root "@ + lossy_text(path),
        ErrorView::CreateStoreDirectory { name, .. } => "create store directory "@ + name,
        ErrorView::OpenSource { path, .. } => "open download source "@ + lossy_text(path),
        ErrorView::FetchUrl { url, .. } => "download "@ + url,
        ErrorView::CreateDownload { path, .. } => "create temporary download "@ + lossy_text(path),
        ErrorView::TargetConflict { path, .. } => "installation target conflict: "@
            + lossy_text(path),
        ErrorView::PublishInstallation { path, .. } => "publish installation "@ + lossy_text(path),
        ErrorView::PublishDownload { path, .. } => "publish download object "@ + lossy_text(path),
    }
}

/// What lies behind an error, where something does.
pub open spec fn error_detail(error: ErrorView) -> Option<Seq<char>> {
    match error {
        ErrorView::InvalidUrl { reason, .. } => Some(reason),
        ErrorView::UnsafeArchivePath { cause, .. } => Some(path_message(cause)),
        ErrorView::LinkFailed { reason, .. } => Some(reason),
        ErrorView::ReadPlan { reason, .. } => Some(reason),
        ErrorView::ParsePlan { reason, .. } => Some(reason),
        ErrorView::PlanMetadata { reason, .. } => Some(reason),
        ErrorView::ReadDownloadKey { reason, .. } => Some(reason),
        ErrorView::ReadDownload { reason, .. } => Some(reason),
        ErrorView::ReadObjectKey { reason, .. } => Some(reason),
        ErrorView::ExecuteItem { cause_text, .. } => Some(cause_text),
        ErrorView::AcquireLock { reason, .. } => Some(reason),
        ErrorView::OpenLock { reason, .. } => Some(reason),
        ErrorView::CreateRoot { reason, .. } => Some(reason),
        ErrorView::CreateStoreDirectory { reason, .. } => Some(reason),
        ErrorView::OpenSource { reason, .. } => Some(reason),
        ErrorView::FetchUrl { reason, .. } => Some(reason),
        ErrorView::CreateDownload { reason, .. } => Some(reason),
        ErrorView::TargetConflict { reason, .. } => Some(reason),
        ErrorView::PublishInstallation { reason, .. } => Some(reason),
        ErrorView::PublishDownload { reason, .. } => Some(reason),
        _ => None,
    }
}

/// An error told in full: its outermost line and what lies behind it.
pub open spec fn error_message(error: ErrorView) -> Seq<char> {
    match error_detail(error) {
        Some(detail) => error_summary(error) + ": "@ + detail,
        None => error_summary(error),
    }
}

impl Error {
    /// Tells the outermost line of the error.
    pub fn summary(&self) -> (text: String)
        ensures
            text@ == error_summary(self@),
    {
        match self {
            Error::UnsupportedVersion { version } => {
                let mut text = "unsupported plan version ".to_owned();
                text.append(decimal_text(*version as u64).as_str());
                text
            },
            Error::EmptyPlanKey => "plan key must not be empty".to_owned(),
            Error::EmptyDownloadKey => "download key must not be empty".to_owned(),
            Error::InvalidUrl { url, .. } => {
                let mut text = "invalid download URL: ".to_owned();
                text.append(url.as_str());
                text
            },
            Error::UnsupportedScheme { scheme } => {
                let mut text = "unsupported download URL scheme: ".to_owned();
                text.append(scheme.as_str());
                text
            },
            Error::DigestAlgorithm => "only sha256 digests are supported".to_owned(),
            Error::DigestLength => {
                "sha256 digest must contain 64 hexadecimal characters".to_owned()
            },
            Error::DigestAlphabet => "sha256 digest must use lowercase hexadecimal".to_owned(),
            Error::Path { cause } => cause.message(),
            Error::EmptyFileName => "file name must not be empty".to_owned(),
            Error::NotSingleName { name } => {
                let mut text = "expected a single file name: ".to_owned();
                text.append(name.as_str());
                text
            },
            Error::DownloadKeyCollision => "download key hash collision".to_owned(),
            Error::DownloadNotFile => "download object is not a regular file".to_owned(),
            Error::SizeConflict { key, expected_size, actual_size } => {
                let mut text = "download key ".to_owned();
                text.append(key.as_str());
                text.append(" size conflict: expected ");
                text.append(decimal_text(*expected_size as u64).as_str());
                text.append(", got ");
                text.append(decimal_text(*actual_size as u64).as_str());
                text
            },
            Error::DigestConflict { key, expected_digest, actual_digest } => {
                let mut text = "download key ".to_owned();
                text.append(key.as_str());
                text.append(" digest conflict: expected ");
                text.append(expected_digest.as_str());
                text.append(", got ");
                text.append(actual_digest.as_str());
                text
            },
            Error::UnparsedUrl { reason } => reason.clone(),
            Error::InvalidFileUrl { url } => {
                let mut text = "invalid file URL: ".to_owned();
                text.append(url.as_str());
                text
            },
            Error::SizeMismatch { key, expected_size, actual_size } => {
                let mut text = "download key ".to_owned();
                text.append(key.as_str());
                text.append(" size mismatch: expected ");
                text.append(decimal_text(*expected_size as u64).as_str());
                text.append(", got ");
                text.append(decimal_text(*actual_size as u64).as_str());
                text
            },
            Error::DigestMismatch { key, expected_digest, actual_digest } => {
                let mut text = "download key ".to_owned();
                text.append(key.as_str());
                text.append(" digest mismatch: expected ");
                text.append(expected_digest.as_str());
                text.append(", got ");
                text.append(actual_digest.as_str());
                text
            },
            Error::UnsafeArchivePath { path, .. } => {
                let mut text = "archive contains an unsafe path: ".to_owned();
                text.append(lossy(path.as_slice()).as_str());
                text
            },
            Error::UnsupportedEntry { path } => {
                let mut text = "archive contains an unsupported entry type: ".to_owned();
                text.append(lossy(path.as_slice()).as_str());
                text
            },
            Error::DuplicateEntry { path } => {
                let mut text = "archive contains duplicate path: ".to_owned();
                text.append(lossy(path.as_slice()).as_str());
                text
            },
            Error::EntryNotFile => "archive entry is not a regular file".to_owned(),
            Error::MissingEntry { path } => {
                let mut text = "archive does not contain file: ".to_owned();
                text.append(lossy(path.as_slice()).as_str());
                text
            },
            Error::UnreadableArchive { reason } => reason.clone(),
            Error::TargetWithoutParent => "installation target has no parent directory".to_owned(),
            Error::TypeConflict { path } => {
                let mut text = "installation target type conflict: ".to_owned();
                text.append(lossy(path.as_slice()).as_str());
                text
            },
            Error::PlanNotFile => "plan must be a regular file".to_owned(),
            Error::OtherFileSystem => {
                "plan file and store must be on the same file system".to_owned()
            },
            Error::LinkCount => "a new plan file must have exactly one link".to_owned(),
            Error::InodeTaken => "request inode path is already bound to another file".to_owned(),
            Error::LinkFailed { inode, .. } => {
                let mut text = "register plan inode ".to_owned();
                text.append(inode.as_str());
                text
            },
            Error::PlanReplaced => "plan file was replaced while being registered".to_owned(),
            Error::PlanModified => "plan file was modified while create was running".to_owned(),
            Error::PlanRemoved => "upstream plan file was removed".to_owned(),
            Error::PlanKeyConflict => {
                "request inode is already bound to another plan key".to_owned()
            },
            Error::ObjectKeyCollision => "object key hash collision".to_owned(),
            Error::MissingRoot => "installation object is missing its root directory".to_owned(),
            Error::Failed { reason } => reason.clone(),
            Error::ReadPlan { path, .. } => {
                let mut text = "read plan file ".to_owned();
                text.append(lossy(path.as_slice()).as_str());
                text
            },
            Error::ParsePlan { path, .. } => {
                let mut text = "parse plan file ".to_owned();
                text.append(lossy(path.as_slice()).as_str());
                text
            },
            Error::PlanMetadata { path, .. } => {
                let mut text = "read plan metadata ".to_owned();
                text.append(lossy(path.as_slice()).as_str());
                text
            },
            Error::ReadDownloadKey { path, .. } => {
                let mut text = "read download object key: ".to_owned();
                text.append(lossy(path.as_slice()).as_str());
                text
            },
            Error::ReadDownload { path, .. } => {
                let mut text = "read download object: ".to_owned();
                text.append(lossy(path.as_slice()).as_str());
                text
            },
            Error::ReadObjectKey { path, .. } => {
                let mut text = "read object key: ".to_owned();
                text.append(lossy(path.as_slice()).as_str());
                text
            },
            Error::DownloadCount => "plan download count does not match item count".to_owned(),
            Error::OutputClosed => "output is closed".to_owned(),
            Error::ExecuteItem { key, .. } => {
                let mut text = "execute plan item ".to_owned();
                text.append(key.as_str());
                text
            },
            Error::AcquireLock { path, .. } => {
                let mut text = "acquire lock ".to_owned();
                text.append(lossy(path.as_slice()).as_str());
                text
            },
            Error::OpenLock { path, .. } => {
                let mut text = "open lock file ".to_owned();
                text.append(lossy(path.as_slice()).as_str());
                text
            },
            Error::CreateRoot { path, .. } => {
                let mut text = "create store root ".to_owned();
                text.append(lossy(path.as_slice()).as_str());
                text
            },
            Error::CreateStoreDirectory { name, .. } => {
                let mut text = "create store directory ".to_owned();
                text.append(name.as_str());
                text
            },
            Error::OpenSource { path, .. } => {
                let mut text = "open download source ".to_owned();
                text.append(lossy(path.as_slice()).as_str());
                text
            },
            Error::FetchUrl { url, .. } => {
                let mut text = "download ".to_owned();
                text.append(url.as_str());
                text
            },
            Error::CreateDownload { path, .. } => {
                let mut text = "create temporary download ".to_owned();
                text.append(lossy(path.as_slice()).as_str());
                text
            },
            Error::TargetConflict { path, .. } => {
                let mut text = "installation target conflict: ".to_owned();
                text.append(lossy(path.as_slice()).as_str());
                text
            },
            Error::PublishInstallation { path, .. } => {
                let mut text = "publish installation ".to_owned();
                text.append(lossy(path.as_slice()).as_str());
                text
            },
            Error::PublishDownload { path, .. } => {
                let mut text = "publish download object ".to_owned();
                text.append(lossy(path.as_slice()).as_str());
                text
            },
        }
    }

    /// Tells what lies behind the error, where something does.
    pub fn detail(&self) -> (text: Option<String>)
        ensures
            crate::text::optional_text(text) == error_detail(self@),
    {
        match self {
            Error::InvalidUrl { reason, .. } => Some(reason.clone()),
            Error::UnsafeArchivePath { cause, .. } => Some(cause.message()),
            Error::LinkFailed { reason, .. } => Some(reason.clone()),
            Error::ReadPlan { reason, .. } => Some(reason.clone()),
            Error::ParsePlan { reason, .. } => Some(reason.clone()),
            Error::PlanMetadata { reason, .. } => Some(reason.clone()),
            Error::ReadDownloadKey { reason, .. } => Some(reason.clone()),
            Error::ReadDownload { reason, .. } => Some(reason.clone()),
            Error::ReadObjectKey { reason, .. } => Some(reason.clone()),
            Error::ExecuteItem { cause_text, .. } => Some(cause_text.clone()),
            Error::AcquireLock { reason, .. } => Some(reason.clone()),
            Error::OpenLock { reason, .. } => Some(reason.clone()),
            Error::CreateRoot { reason, .. } => Some(reason.clone()),
            Error::CreateStoreDirectory { reason, .. } => Some(reason.clone()),
            Error::OpenSource { reason, .. } => Some(reason.clone()),
            Error::FetchUrl { reason, .. } => Some(reason.clone()),
            Error::CreateDownload { reason, .. } => Some(reason.clone()),
            Error::TargetConflict { reason, .. } => Some(reason.clone()),
            Error::PublishInstallation { reason, .. } => Some(reason.clone()),
            Error::PublishDownload { reason, .. } => Some(reason.clone()),
            _ => None,
        }
    }

    /// Tells the error in full.
    pub fn message(&self) -> (text: String)
        ensures
            text@ == error_message(self@),
    {
        let mut text = self.summary();
        match self.detail() {
            Some(detail) => {
                text.append(": ");
                text.append(detail.as_str());
            },
            None => {},
        }
        text
    }
}

/// An error is told in full as its outermost line and, where something lies behind it,
/// that, behind a colon and a blank. What lies behind it is the reason that came with it.
pub proof fn errors_are_told_with_their_reason(error: ErrorView, path: Seq<u8>, reason: Seq<char>)
    ensures
        error_detail(error) is Some ==> error_message(error) == error_summary(error) + ": "@
            + error_detail(error)->0,
        error_detail(error) is None ==> error_message(error) == error_summary(error),
        error_message(ErrorView::Failed { reason }) == reason,
        error_message(ErrorView::UnreadableArchive { reason }) == reason,
        error_message(ErrorView::UnparsedUrl { reason }) == reason,
        error_message(ErrorView::ReadPlan { path, reason }) == "read plan file "@ + lossy_text(path)
            + ": "@ + reason,
        error_message(ErrorView::ParsePlan { path, reason }) == "parse plan file "@ + lossy_text(
            path,
        ) + ": "@ + reason,
        error_message(ErrorView::ReadDownloadKey { path, reason }) == "read download object key: "@
            + lossy_text(path) + ": "@ + reason,
        error_message(ErrorView::ReadDownload { path, reason }) == "read download object: "@
            + lossy_text(path) + ": "@ + reason,
        error_message(ErrorView::InvalidUrl { url: reason, reason }) == "invalid download URL: "@
            + reason + ": "@ + reason,
        error_message(ErrorView::ExecuteItem { key: reason, cause_text: reason })
            == "execute plan item "@ + reason + ": "@ + reason,
{
}

/// What does not fit is told with the key, what was asked for and what was found, in that
/// order.
pub proof fn conflicts_are_told_with_both_sides(
    key: Seq<char>,
    expected_size: u64,
    actual_size: u64,
    expected_digest: Seq<char>,
    actual_digest: Seq<char>,
)
    ensures
        error_message(ErrorView::SizeConflict { key, expected_size, actual_size })
            == "download key "@ + key + " size conflict: expected "@ + decimal(
            expected_size as nat,
        ) + ", got "@ + decimal(actual_size as nat),
        error_message(ErrorView::SizeMismatch { key, expected_size, actual_size })
            == "download key "@ + key + " size mismatch: expected "@ + decimal(
            expected_size as nat,
        ) + ", got "@ + decimal(actual_size as nat),
        error_message(ErrorView::DigestConflict { key, expected_digest, actual_digest })
            == "download key "@ + key + " digest conflict: expected "@ + expected_digest
            + ", got "@ + actual_digest,
        error_message(ErrorView::DigestMismatch { key, expected_digest, actual_digest })
            == "download key "@ + key + " digest mismatch: expected "@ + expected_digest
            + ", got "@ + actual_digest,
{
}

/// What is refused for a path, a name or a place is told with it.
pub proof fn refusals_name_what_they_refuse(
    path: Seq<u8>,
    name: Seq<char>,
    cause: PathErrorView,
    version: u32,
)
    ensures
        path_message(PathErrorView::Absolute { path }) == "path must be relative: "@ + lossy_text(
            path,
        ),
        path_message(PathErrorView::Unsafe { path }) == "path contains an unsafe component: "@
            + lossy_text(path),
        error_message(ErrorView::Path { cause }) == path_message(cause),
        error_message(ErrorView::UnsafeArchivePath { path, cause })
            == "archive contains an unsafe path: "@ + lossy_text(path) + ": "@ + path_message(
            cause,
        ),
        error_message(ErrorView::UnsupportedEntry { path })
            == "archive contains an unsupported entry type: "@ + lossy_text(path),
        error_message(ErrorView::DuplicateEntry { path }) == "archive contains duplicate path: "@
            + lossy_text(path),
        error_message(ErrorView::MissingEntry { path }) == "archive does not contain file: "@
            + lossy_text(path),
        error_message(ErrorView::TypeConflict { path }) == "installation target type conflict: "@
            + lossy_text(path),
        error_message(ErrorView::UnsupportedVersion { version }) == "unsupported plan version "@
            + decimal(version as nat),
        error_message(ErrorView::UnsupportedScheme { scheme: name })
            == "unsupported download URL scheme: "@ + name,
        error_message(ErrorView::InvalidFileUrl { url: name }) == "invalid file URL: "@ + name,
        error_message(ErrorView::NotSingleName { name }) == "expected a single file name: "@ + name,
{
}

} // verus!
