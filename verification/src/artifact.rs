//! Artifacts: how downloads are received and checked, and how a plan is carried
//! out with them.

use serde_json::Value;
use vstd::prelude::*;

use crate::archive::{names_entry, unpack_dir, unpack_file, Step, StepView, Work, WorkView};
use crate::archive::{EXECUTABLE_MODE, FILE_MODE};
use crate::digest::Digester;
use crate::error::{Error, ErrorView};
use crate::path::{is_current_dir, join_path};
use crate::plan::{parse_scheme, Item, ItemView, Plan, PlanItem, PlanItemView, PlanView};
use crate::progress::{download_progress, downloaded};

verus! {

use crate::archive::{
    archive_dir_work,
    archive_file_work,
    failed_work,
    has_parent,
    no_work,
    picked_file_is_all_that_is_written,
    placed_step,
    single_step,
    stays_within,
    step_target,
    step_views,
    unpack_dir_work,
    unpack_file_work,
    unpacked_archive_stays_below,
    work_in_turn,
};
use crate::digest::{digest_text, hex_text, sha256};
use crate::error::error_message;
use crate::json::{is_flat, json};
use crate::path::{
    accepted_path_stays_below,
    below_is_transitive,
    is_below,
    is_current,
    named_steps,
    path_components,
    path_join,
    plain_name_stays_below,
    ComponentView,
};
use crate::plan::{
    accepted_plan_has_accepted_items,
    action_error,
    item_error,
    parsed_url_view,
    plan_error,
    url_scheme,
};
use crate::progress::{download_progress_json, downloaded_json};
use crate::tarball::archive_entries;
use vstd::utf8::encode_utf8;

/// What is known of the data of a download object.
#[derive(Debug)]
pub struct DataFile {
    pub regular: bool,
    pub size: u64,
}

/// What was found at the place of a download object.
pub struct StoredDownload {
    /// The key in it, or why that could not be read.
    pub key: Result<String, String>,
    /// Its data, or why that could not be inspected.
    pub data: Result<DataFile, String>,
    /// The digest of its data, or why that could not be read; read only for an
    /// item that asks for a digest.
    pub contents: Option<Result<Digester, String>>,
}

/// Where the data of a download object is.
pub open spec fn data_path(object: Seq<u8>) -> Seq<u8> {
    path_join(object, encode_utf8("data"@))
}

/// Where the data of a download object is.
pub fn object_data(object: &[u8]) -> (path: Vec<u8>)
    ensures
        path@ == data_path(object@),
{
    join_path(object, "data".as_bytes())
}

/// What is wrong with the data of a download object for an item, if anything is.
pub open spec fn stored_data_error(
    item: ItemView,
    data: DataFile,
    contents: Option<Result<Digester, String>>,
) -> Option<ErrorView> {
    if !data.regular {
        Some(ErrorView::DownloadNotFile)
    } else if item.size is Some && item.size->0 != data.size {
        Some(
            ErrorView::SizeConflict {
                key: item.key,
                expected_size: item.size->0,
                actual_size: data.size,
            },
        )
    } else if item.digest is Some {
        match contents->0 {
            Err(reason) => Some(ErrorView::Failed { reason: reason@ }),
            Ok(digester) => if digest_text(digester@) == item.digest->0 {
                None
            } else {
                Some(
                    ErrorView::DigestConflict {
                        key: item.key,
                        expected_digest: item.digest->0,
                        actual_digest: digest_text(digester@),
                    },
                )
            },
        }
    } else {
        None
    }
}

/// What is wrong with a download object for an item, if anything is.
pub open spec fn stored_download_error(
    object: Seq<u8>,
    item: ItemView,
    stored: StoredDownload,
) -> Option<ErrorView> {
    match stored.key {
        Err(reason) => Some(ErrorView::ReadDownloadKey { path: object, reason: reason@ }),
        Ok(key) => if key@ != item.key {
            Some(ErrorView::DownloadKeyCollision)
        } else {
            match stored.data {
                Err(reason) => Some(
                    ErrorView::ReadDownload { path: data_path(object), reason: reason@ },
                ),
                Ok(data) => stored_data_error(item, data, stored.contents),
            }
        },
    }
}

/// Accepts the download object of an item: it holds the key of the item and, as
/// far as the item says, data of the right size and digest. Hands out where the
/// data is.
pub fn verify_download(object: &[u8], item: &Item, stored: StoredDownload) -> (result: Result<
    Vec<u8>,
    Error,
>)
    requires
        item.digest is Some ==> stored.contents is Some,
    ensures
        match result {
            Ok(path) => stored_download_error(object@, item@, stored) is None && path@ == data_path(
                object@,
            ),
            Err(error) => stored_download_error(object@, item@, stored) == Some(error@),
        },
        result is Ok <==> {
            &&& stored.key is Ok
            &&& stored.key->Ok_0@ == item@.key
            &&& stored.data is Ok
            &&& stored.data->Ok_0.regular
            &&& forall|size: u64| item@.size == Some(size) ==> stored.data->Ok_0.size == size
            &&& item@.digest is Some ==> stored.contents->0 is Ok && item@.digest == Some(
                "sha256:"@ + hex_text(sha256(stored.contents->0->Ok_0@)),
            )
        },
{
    proof {
        stored_download_is_what_was_asked_for(object@, item@, stored);
    }
    match stored.key {
        Err(reason) => {
            return Err(
                Error::ReadDownloadKey { path: vstd::slice::slice_to_vec(object), reason },
            );
        },
        Ok(key) => {
            if key != item.key {
                return Err(Error::DownloadKeyCollision);
            }
        },
    }
    let path = object_data(object);
    match stored.data {
        Err(reason) => {
            return Err(Error::ReadDownload { path, reason });
        },
        Ok(data) => {
            if !data.regular {
                return Err(Error::DownloadNotFile);
            }
            match item.size {
                Some(expected) => {
                    if data.size != expected {
                        return Err(
                            Error::SizeConflict {
                                key: item.key.clone(),
                                expected_size: expected,
                                actual_size: data.size,
                            },
                        );
                    }
                },
                None => {},
            }
        },
    }
    match (&item.digest, stored.contents) {
        (Some(expected), Some(contents)) => {
            match contents {
                Err(reason) => {
                    return Err(Error::Failed { reason });
                },
                Ok(digester) => {
                    let actual = digester.finish();
                    if actual != *expected {
                        return Err(
                            Error::DigestConflict {
                                key: item.key.clone(),
                                expected_digest: expected.clone(),
                                actual_digest: actual,
                            },
                        );
                    }
                },
            }
        },
        _ => {},
    }
    Ok(path)
}

/// What `url::Url::to_file_path` makes of the URL that a text is, where it is one
/// and names a local path.
pub uninterp spec fn url_file_path(url: Seq<char>) -> Option<Seq<u8>>;

/// Calls `url::Url::parse` and, where that succeeds, `to_file_path` of the URL.
#[verifier::external_body]
fn parse_file_path(url: &str) -> (path: Option<Vec<u8>>)
    ensures
        match path {
            Some(path) => url_file_path(url@) == Some(path@),
            None => url_file_path(url@) is None,
        },
{
    let path = url::Url::parse(url).ok()?.to_file_path().ok()?;
    Some(path.into_os_string().into_encoded_bytes())
}

/// Where a download comes from.
#[derive(Debug)]
pub enum Source {
    /// A file of the local file system.
    Local { path: Vec<u8> },
    /// A URL that is fetched over the network.
    Remote { url: String },
}

/// The mathematical form of [`Source`].
pub enum SourceView {
    Local { path: Seq<u8> },
    Remote { url: Seq<char> },
}

impl View for Source {
    type V = SourceView;

    open spec fn view(&self) -> SourceView {
        match self {
            Source::Local { path } => SourceView::Local { path: path@ },
            Source::Remote { url } => SourceView::Remote { url: url@ },
        }
    }
}

/// Where the download of a URL comes from, given what the URL parser said of it
/// and the local path that it names, if it names one.
pub open spec fn source_given(
    url: Seq<char>,
    parsed: Result<Seq<char>, Seq<char>>,
    local: Option<Seq<u8>>,
) -> Result<SourceView, ErrorView> {
    match parsed {
        Err(reason) => Err(ErrorView::UnparsedUrl { reason }),
        Ok(scheme) => if scheme == "file"@ {
            match local {
                Some(path) => Ok(SourceView::Local { path }),
                None => Err(ErrorView::InvalidFileUrl { url }),
            }
        } else if scheme == "http"@ || scheme == "https"@ {
            Ok(SourceView::Remote { url })
        } else {
            Err(ErrorView::UnsupportedScheme { scheme })
        },
    }
}

/// The mathematical form of an optional path.
pub open spec fn optional_path(path: Option<Vec<u8>>) -> Option<Seq<u8>> {
    match path {
        Some(path) => Some(path@),
        None => None,
    }
}

/// Where the download of a URL comes from, given the scheme of the URL or why it
/// does not parse, and the local path that it names, if it names one.
pub fn choose_source(
    url: &String,
    parsed: Result<String, String>,
    local: Option<Vec<u8>>,
) -> (result: Result<Source, Error>)
    ensures
        match result {
            Ok(source) => source_given(url@, parsed_url_view(parsed), optional_path(local))
                == Ok::<SourceView, ErrorView>(source@),
            Err(error) => source_given(url@, parsed_url_view(parsed), optional_path(local))
                == Err::<SourceView, ErrorView>(error@),
        },
{
    match parsed {
        Err(reason) => Err(Error::UnparsedUrl { reason }),
        Ok(scheme) => {
            if scheme == "file".to_owned() {
                match local {
                    Some(path) => Ok(Source::Local { path }),
                    None => Err(Error::InvalidFileUrl { url: url.clone() }),
                }
            } else if scheme == "http".to_owned() || scheme == "https".to_owned() {
                Ok(Source::Remote { url: url.clone() })
            } else {
                Err(Error::UnsupportedScheme { scheme })
            }
        },
    }
}

/// Where the download of an item comes from.
pub fn download_source(item: &Item) -> (result: Result<Source, Error>)
    ensures
        match result {
            Ok(source) => source_given(item@.url, url_scheme(item@.url), url_file_path(item@.url))
                == Ok::<SourceView, ErrorView>(source@),
            Err(error) => source_given(item@.url, url_scheme(item@.url), url_file_path(item@.url))
                == Err::<SourceView, ErrorView>(error@),
        },
{
    let parsed = parse_scheme(item.url.as_str());
    let local = parse_file_path(item.url.as_str());
    choose_source(&item.url, parsed, local)
}

/// The mode of the data of a download: nobody writes to it again.
pub const DOWNLOAD_MODE: u32 = 0o444;

/// How many bytes come between two progress events of a download, at least.
pub const PROGRESS_INTERVAL: u64 = 1048576;

/// A download that is being received.
pub struct Download {
    digester: Digester,
    total: u64,
    next_progress: u64,
}

impl Download {
    /// The bytes that have come.
    pub closed spec fn received(&self) -> Seq<u8> {
        self.digester@
    }

    /// How many bytes have to have come for the next progress event.
    pub closed spec fn next_progress(&self) -> int {
        self.next_progress as int
    }

    /// The count of bytes is right.
    pub closed spec fn well_formed(&self) -> bool {
        self.total == self.digester@.len()
    }

    /// Nothing has come.
    pub fn new() -> (download: Download)
        ensures
            download.well_formed(),
            download.received() == Seq::<u8>::empty(),
            download.next_progress() == PROGRESS_INTERVAL,
            download.next_progress() == 1048576,
    {
        Download { digester: Digester::new(), total: 0, next_progress: PROGRESS_INTERVAL }
    }

    /// Takes in bytes as they come. Tells the progress once enough have come
    /// since it was told last.
    pub fn receive(&mut self, item: &Item, chunk: &[u8]) -> (event: Option<Value>)
        requires
            old(self).well_formed(),
            old(self).received().len() + chunk@.len() <= u64::MAX,
        ensures
            final(self).well_formed(),
            final(self).received() == old(self).received() + chunk@,
            final(self).received().len() >= old(self).next_progress() ==> {
                &&& event is Some
                &&& json(event->0) == download_progress_json(
                    item@.key,
                    final(self).received().len() as u64,
                    item@.size,
                )
                &&& is_flat(json(event->0))
                &&& final(self).next_progress() == if final(self).received().len()
                    + PROGRESS_INTERVAL <= u64::MAX {
                    final(self).received().len() + PROGRESS_INTERVAL
                } else {
                    u64::MAX as int
                }
                &&& final(self).next_progress() == u64::MAX || final(self).next_progress()
                    == old(self).received().len() + chunk@.len() + 1048576
            },
            final(self).received().len() < old(self).next_progress() ==> {
                &&& event is None
                &&& final(self).next_progress() == old(self).next_progress()
            },
    {
        self.digester.update(chunk);
        self.total = self.total + chunk.len() as u64;
        if self.total >= self.next_progress {
            self.next_progress = self.total.saturating_add(PROGRESS_INTERVAL);
            Some(download_progress(item.key.as_str(), self.total, item.size))
        } else {
            None
        }
    }

    /// Accepts a download that is complete, if its size and digest are those that
    /// the item asks for.
    pub fn finish(self, item: &Item) -> (result: Result<Value, Error>)
        requires
            self.well_formed(),
        ensures
            self.received().len() <= u64::MAX,
            match result {
                Ok(event) => received_error(item@, self.received()) is None && json(event)
                    == downloaded_json(
                    item@.key,
                    self.received().len() as u64,
                    digest_text(self.received()),
                ) && is_flat(json(event)),
                Err(error) => received_error(item@, self.received()) == Some(error@),
            },
    {
        match item.size {
            Some(expected) => {
                if self.total != expected {
                    return Err(
                        Error::SizeMismatch {
                            key: item.key.clone(),
                            expected_size: expected,
                            actual_size: self.total,
                        },
                    );
                }
            },
            None => {},
        }
        let actual = self.digester.finish();
        match &item.digest {
            Some(expected) => {
                if actual != *expected {
                    return Err(
                        Error::DigestMismatch {
                            key: item.key.clone(),
                            expected_digest: expected.clone(),
                            actual_digest: actual,
                        },
                    );
                }
            },
            None => {},
        }
        Ok(downloaded(item.key.as_str(), self.total, actual.as_str()))
    }
}

/// What is wrong with the bytes of a complete download for an item, if anything
/// is.
pub open spec fn received_error(item: ItemView, bytes: Seq<u8>) -> Option<ErrorView> {
    if item.size is Some && item.size->0 != bytes.len() {
        Some(
            ErrorView::SizeMismatch {
                key: item.key,
                expected_size: item.size->0,
                actual_size: bytes.len() as u64,
            },
        )
    } else if item.digest is Some && item.digest->0 != digest_text(bytes) {
        Some(
            ErrorView::DigestMismatch {
                key: item.key,
                expected_digest: item.digest->0,
                actual_digest: digest_text(bytes),
            },
        )
    } else {
        None
    }
}

/// A download that was accepted passes the check of its object later, for as long
/// as the object is what was stored; and one that was refused would not.
pub proof fn accepted_download_verifies(
    item: ItemView,
    bytes: Seq<u8>,
    object: Seq<u8>,
    stored: StoredDownload,
)
    requires
        stored.key is Ok && stored.key->Ok_0@ == item.key,
        stored.data is Ok && stored.data->Ok_0.regular && stored.data->Ok_0.size == bytes.len(),
        stored.contents is Some && stored.contents->0 is Ok && stored.contents->0->Ok_0@ == bytes,
    ensures
        stored_download_error(object, item, stored) is None <==> received_error(item, bytes)
            is None,
{
}

/// A download that is there, and its contents where the action needs them.
#[derive(Debug)]
pub struct Artifact {
    pub path: Vec<u8>,
    pub data: Vec<u8>,
}

/// The mathematical form of [`Artifact`].
pub struct ArtifactView {
    pub path: Seq<u8>,
    pub data: Seq<u8>,
}

impl View for Artifact {
    type V = ArtifactView;

    open spec fn view(&self) -> ArtifactView {
        ArtifactView { path: self.path@, data: self.data@ }
    }
}

/// The mathematical form of a list of artifacts.
pub open spec fn artifact_views(artifacts: Seq<Artifact>) -> Seq<ArtifactView> {
    artifacts.map_values(|artifact: Artifact| artifact@)
}

impl PlanItem {
    /// Whether the action looks into the download.
    pub fn needs_contents(&self) -> (needed: bool)
        ensures
            needed == (self@ is UnpackDir || self@ is UnpackFile),
    {
        match self {
            PlanItem::UnpackDir { .. } => true,
            PlanItem::UnpackFile { .. } => true,
            PlanItem::InstallFile { .. } => false,
            PlanItem::InstallBin { .. } => false,
        }
    }
}

/// Where the executables of an installation go.
pub open spec fn bin_path(root: Seq<u8>) -> Seq<u8> {
    path_join(root, encode_utf8("bin"@))
}

/// What is done when a file is copied to a place.
pub open spec fn copy_work(from: Seq<u8>, to: Seq<u8>, mode: u32) -> WorkView {
    placed_step(to, StepView::CopyNew { from, to, mode })
}

/// Where the entries of an archive go.
pub open spec fn unpack_destination(root: Seq<u8>, to: Seq<u8>) -> Seq<u8> {
    if is_current(to) {
        root
    } else {
        path_join(root, to)
    }
}

/// What is done for an item of a plan.
pub open spec fn item_work(item: ItemView, artifact: ArtifactView, root: Seq<u8>) -> WorkView {
    match item.action {
        PlanItemView::InstallFile { to } => copy_work(
            artifact.path,
            path_join(root, to),
            FILE_MODE,
        ),
        PlanItemView::InstallBin { name } => copy_work(
            artifact.path,
            path_join(bin_path(root), encode_utf8(name)),
            EXECUTABLE_MODE,
        ),
        PlanItemView::UnpackDir { kind, strip, to } => archive_dir_work(
            kind,
            artifact.data,
            strip as nat,
            unpack_destination(root, to),
        ),
        PlanItemView::UnpackFile { kind, from, to } => archive_file_work(
            kind,
            artifact.data,
            from,
            path_join(root, to),
        ),
    }
}

/// What is done when a file is copied to a place where nothing is yet.
pub fn copy_new(from: &[u8], to: Vec<u8>, mode: u32) -> (work: Work)
    ensures
        work@ == copy_work(from@, to@, mode),
{
    let mut steps: Vec<Step> = Vec::new();
    if names_entry(to.as_slice()) {
        steps.push(Step::CopyNew { from: vstd::slice::slice_to_vec(from), to, mode });
        assert(step_views(steps@) =~= seq![StepView::CopyNew { from: from@, to: to@, mode }]);
        Work { steps, failure: None }
    } else {
        assert(step_views(steps@) =~= Seq::<StepView>::empty());
        Work { steps, failure: Some(Error::TargetWithoutParent) }
    }
}

/// What is done for an item of a plan.
pub fn execute_item(item: &Item, artifact: &Artifact, root: &[u8]) -> (work: Work)
    ensures
        work@ == item_work(item@, artifact@, root@),
{
    match &item.action {
        PlanItem::InstallFile { to } => copy_new(
            artifact.path.as_slice(),
            join_path(root, to.as_slice()),
            FILE_MODE,
        ),
        PlanItem::InstallBin { name } => {
            let bin = join_path(root, "bin".as_bytes());
            let to = join_path(bin.as_slice(), name.as_str().as_bytes());
            copy_new(artifact.path.as_slice(), to, EXECUTABLE_MODE)
        },
        PlanItem::UnpackDir { kind, strip, to } => {
            let destination = if is_current_dir(to.as_slice()) {
                vstd::slice::slice_to_vec(root)
            } else {
                join_path(root, to.as_slice())
            };
            unpack_dir(artifact.data.as_slice(), *kind, *strip, destination.as_slice())
        },
        PlanItem::UnpackFile { kind, from, to } => {
            let destination = join_path(root, to.as_slice());
            unpack_file(
                artifact.data.as_slice(),
                *kind,
                from.as_slice(),
                destination.as_slice(),
            )
        },
    }
}

/// What is done for an item of a plan, with a failure that names the item.
pub open spec fn named_item_work(
    item: ItemView,
    artifact: ArtifactView,
    root: Seq<u8>,
) -> WorkView {
    let work = item_work(item, artifact, root);
    WorkView {
        steps: work.steps,
        failure: match work.failure {
            Some(cause) => Some(
                ErrorView::ExecuteItem { key: item.key, cause_text: error_message(cause) },
            ),
            None => None,
        },
    }
}

/// What is done for the items of a plan: the work for each of them in turn, up to
/// the first failure.
pub open spec fn items_work(
    items: Seq<ItemView>,
    artifacts: Seq<ArtifactView>,
    root: Seq<u8>,
) -> WorkView
    decreases items.len(),
{
    if items.len() == 0 {
        no_work()
    } else {
        work_in_turn(
            items_work(items.drop_last(), artifacts, root),
            named_item_work(items.last(), artifacts[items.len() - 1], root),
        )
    }
}

/// What is done before the items of a plan.
pub open spec fn opening_work(root: Seq<u8>) -> WorkView {
    WorkView {
        steps: seq![
            StepView::CreateTree { path: root },
            StepView::SetMode { path: root, mode: EXECUTABLE_MODE },
        ],
        failure: None,
    }
}

/// What is done after the items of a plan.
pub open spec fn closing_work(root: Seq<u8>) -> WorkView {
    single_step(StepView::Normalize { path: root, mode: EXECUTABLE_MODE })
}

/// What is done for a plan.
pub open spec fn plan_work(
    plan: PlanView,
    artifacts: Seq<ArtifactView>,
    root: Seq<u8>,
) -> WorkView {
    if plan.items.len() != artifacts.len() {
        failed_work(ErrorView::DownloadCount)
    } else {
        work_in_turn(
            work_in_turn(opening_work(root), items_work(plan.items, artifacts, root)),
            closing_work(root),
        )
    }
}

/// What is done before the items of a plan: the root is made.
pub fn open_installation(root: &[u8]) -> (work: Work)
    ensures
        work@ == opening_work(root@),
{
    let mut steps: Vec<Step> = Vec::new();
    steps.push(Step::CreateTree { path: vstd::slice::slice_to_vec(root) });
    steps.push(Step::SetMode { path: vstd::slice::slice_to_vec(root), mode: EXECUTABLE_MODE });
    assert(step_views(steps@) =~= opening_work(root@).steps);
    Work { steps, failure: None }
}

/// What is done after the items of a plan: the directories of the root get their
/// mode.
pub fn close_installation(root: &[u8]) -> (work: Work)
    ensures
        work@ == closing_work(root@),
{
    let mut steps: Vec<Step> = Vec::new();
    steps.push(Step::Normalize { path: vstd::slice::slice_to_vec(root), mode: EXECUTABLE_MODE });
    assert(step_views(steps@) =~= closing_work(root@).steps);
    Work { steps, failure: None }
}

/// Names the item that a failure belongs to.
pub fn name_failure(item: &Item, cause: &Error) -> (error: Error)
    ensures
        error@ == (ErrorView::ExecuteItem { key: item@.key, cause_text: error_message(cause@) }),
{
    Error::ExecuteItem { key: item.key.clone(), cause_text: cause.message() }
}

/// What is done for an item of a plan, with a failure that names the item.
pub fn execute_named_item(item: &Item, artifact: &Artifact, root: &[u8]) -> (work: Work)
    ensures
        work@ == named_item_work(item@, artifact@, root@),
{
    let work = execute_item(item, artifact, root);
    let failure = match work.failure {
        Some(cause) => Some(name_failure(item, &cause)),
        None => None,
    };
    Work { steps: work.steps, failure }
}

proof fn lemma_items_failure_is_final(
    items: Seq<ItemView>,
    artifacts: Seq<ArtifactView>,
    root: Seq<u8>,
    count: int,
)
    requires
        0 <= count <= items.len(),
        items_work(items.take(count), artifacts, root).failure is Some,
    ensures
        items_work(items, artifacts, root) == items_work(items.take(count), artifacts, root),
    decreases items.len() - count,
{
    if count == items.len() {
        assert(items.take(count) == items);
    } else {
        assert(items.take(count + 1).drop_last() == items.take(count));
        lemma_items_failure_is_final(items, artifacts, root, count + 1);
    }
}

/// What is done for a plan with a download for each of its items: the root is
/// made, the items are carried out in order up to the first failure, and the
/// directories of the root get their mode.
pub fn execute_plan(plan: &Plan, downloads: &Vec<Artifact>, root: &[u8]) -> (work: Work)
    ensures
        work@ == plan_work(plan@, artifact_views(downloads@), root@),
        plan@.items.len() == downloads@.len() && work.failure is None ==> work@.steps == seq![
            StepView::CreateTree { path: root@ },
            StepView::SetMode { path: root@, mode: 0o755 },
        ] + Seq::new(
            plan@.items.len(),
            |i: int| item_work(plan.items@[i]@, downloads@[i]@, root@).steps,
        ).flatten() + seq![StepView::Normalize { path: root@, mode: 0o755 }],
{
    let ghost items = plan@.items;
    let ghost artifacts = artifact_views(downloads@);
    if plan.items.len() != downloads.len() {
        let steps: Vec<Step> = Vec::new();
        assert(step_views(steps@) =~= Seq::<StepView>::empty());
        return Work { steps, failure: Some(Error::DownloadCount) };
    }
    let mut steps = open_installation(root).steps;
    assert(step_views(steps@) =~= opening_work(root@).steps + items_work(
        items.take(0),
        artifacts,
        root@,
    ).steps);
    let mut i: usize = 0;
    while i < plan.items.len()
        invariant
            i <= plan.items.len(),
            plan.items.len() == downloads.len(),
            items == plan@.items,
            artifacts == artifact_views(downloads@),
            items_work(items.take(i as int), artifacts, root@).failure is None,
            step_views(steps@) == opening_work(root@).steps + items_work(
                items.take(i as int),
                artifacts,
                root@,
            ).steps,
        decreases plan.items.len() - i,
    {
        let ghost before = items_work(items.take(i as int), artifacts, root@);
        let ghost earlier = step_views(steps@);
        let mut work = execute_named_item(&plan.items[i], &downloads[i], root);
        proof {
            assert(items.take(i + 1).drop_last() == items.take(i as int));
            assert(items.take(i + 1).last() == plan.items@[i as int]@);
            assert(artifacts[i as int] == downloads@[i as int]@);
        }
        let ghost added = work.steps@;
        steps.append(&mut work.steps);
        proof {
            assert(step_views(steps@) =~= earlier + step_views(added));
            assert(step_views(steps@) =~= opening_work(root@).steps + (before.steps + step_views(
                added,
            )));
        }
        if work.failure.is_some() {
            proof {
                lemma_items_failure_is_final(items, artifacts, root@, i + 1);
            }
            return Work { steps, failure: work.failure };
        }
        i += 1;
    }
    assert(items.take(i as int) == items);
    let ghost earlier = step_views(steps@);
    let mut closing = close_installation(root).steps;
    let ghost added = closing@;
    steps.append(&mut closing);
    assert(step_views(steps@) =~= earlier + step_views(added));
    proof {
        each_item_is_made_of_its_own_download(plan@, artifacts, root@);
        assert(Seq::new(
            items.len(),
            |i: int| item_work(plan.items@[i]@, downloads@[i]@, root@).steps,
        ) =~= Seq::new(items.len(), |i: int| item_work(items[i], artifacts[i], root@).steps));
    }
    Work { steps, failure: None }
}

/// What has to happen where a directory is wanted: whether it has to be created,
/// given whether there is anything at its place and whether that is a directory.
pub fn create_directory(path: &[u8], exists: bool, is_dir: bool) -> (result: Result<bool, Error>)
    ensures
        match result {
            Ok(create) => (exists ==> is_dir) && create == !exists,
            Err(error) => exists && !is_dir && error@ == (ErrorView::TypeConflict { path: path@ }),
        },
{
    if exists {
        if is_dir {
            Ok(false)
        } else {
            Err(Error::TypeConflict { path: vstd::slice::slice_to_vec(path) })
        }
    } else {
        Ok(true)
    }
}

proof fn lemma_within_wider(steps: Seq<StepView>, middle: Seq<u8>, base: Seq<u8>)
    requires
        stays_within(steps, middle),
        middle == base || is_below(base, middle),
    ensures
        stays_within(steps, base),
{
    assert forall|i: int| 0 <= i < steps.len() implies step_target(#[trigger] steps[i]) == base
        || is_below(base, step_target(steps[i])) by {
        let target = step_target(steps[i]);
        if middle != base && target != middle {
            below_is_transitive(base, middle, target);
        }
    }
}

/// What is done for an item that was accepted is done at the root of the
/// installation or below it, and nowhere else, whatever the download holds.
pub proof fn accepted_item_stays_within(item: ItemView, artifact: ArtifactView, root: Seq<u8>)
    requires
        item_error(item) is None,
    ensures
        stays_within(item_work(item, artifact, root).steps, root),
{
    match item.action {
        PlanItemView::InstallFile { to } => {
            accepted_path_stays_below(root, to);
        },
        PlanItemView::InstallBin { name } => {
            reveal_strlit("bin");
            plain_name_stays_below(root, "bin"@);
            accepted_path_stays_below(bin_path(root), encode_utf8(name));
            below_is_transitive(
                root,
                bin_path(root),
                path_join(bin_path(root), encode_utf8(name)),
            );
        },
        PlanItemView::UnpackDir { kind, strip, to } => {
            let destination = unpack_destination(root, to);
            let entries = archive_entries(kind, artifact.data);
            unpacked_archive_stays_below(entries, strip as nat, destination);
            if !is_current(to) {
                accepted_path_stays_below(root, to);
            }
            lemma_within_wider(item_work(item, artifact, root).steps, destination, root);
        },
        PlanItemView::UnpackFile { kind, from, to } => {
            let destination = path_join(root, to);
            let entries = archive_entries(kind, artifact.data);
            picked_file_is_all_that_is_written(entries, from, destination);
            accepted_path_stays_below(root, to);
            lemma_within_wider(item_work(item, artifact, root).steps, destination, root);
        },
    }
}

proof fn lemma_items_stay_within(
    plan: PlanView,
    count: int,
    artifacts: Seq<ArtifactView>,
    root: Seq<u8>,
)
    requires
        plan_error(plan) is None,
        0 <= count <= plan.items.len(),
    ensures
        stays_within(items_work(plan.items.take(count), artifacts, root).steps, root),
    decreases count,
{
    if count > 0 {
        lemma_items_stay_within(plan, count - 1, artifacts, root);
        assert(plan.items.take(count).drop_last() == plan.items.take(count - 1));
        accepted_plan_has_accepted_items(plan, count - 1);
        accepted_item_stays_within(plan.items[count - 1], artifacts[count - 1], root);
    }
}

/// What is done for a plan that was accepted is done at the root of the
/// installation or below it, and nowhere else, whatever the downloads hold.
pub proof fn accepted_plan_stays_within(
    plan: PlanView,
    artifacts: Seq<ArtifactView>,
    root: Seq<u8>,
)
    requires
        plan_error(plan) is None,
    ensures
        stays_within(plan_work(plan, artifacts, root).steps, root),
{
    lemma_items_stay_within(plan, plan.items.len() as int, artifacts, root);
    assert(plan.items.take(plan.items.len() as int) == plan.items);
}

/// A stored download is accepted exactly where it holds the key of the item, its data
/// is a regular file, the data has the size of the item, where the item gives one, and
/// the digest of the item, where the item gives one. Whether the data was read makes no
/// difference to an item that gives no digest.
pub proof fn stored_download_is_what_was_asked_for(
    object: Seq<u8>,
    item: ItemView,
    stored: StoredDownload,
)
    requires
        item.digest is Some ==> stored.contents is Some,
    ensures
        stored_download_error(object, item, stored) is None <==> {
            &&& stored.key is Ok
            &&& stored.key->Ok_0@ == item.key
            &&& stored.data is Ok
            &&& stored.data->Ok_0.regular
            &&& forall|size: u64| item.size == Some(size) ==> stored.data->Ok_0.size == size
            &&& item.digest is Some ==> stored.contents->0 is Ok && item.digest == Some(
                "sha256:"@ + hex_text(sha256(stored.contents->0->Ok_0@)),
            )
        },
{
    if stored_download_error(object, item, stored) is None {
        assert(item.size is Some ==> item.size == Some(stored.data->Ok_0.size));
    }
}

/// Of a stored download that is not what was asked for, the first of these is told: its
/// key cannot be read, it holds another key, its data cannot be inspected, is no regular
/// file, has another size, cannot be read, or has another digest.
pub proof fn faults_of_a_stored_download_are_told_in_order(
    object: Seq<u8>,
    item: ItemView,
    stored: StoredDownload,
)
    requires
        item.digest is Some ==> stored.contents is Some,
    ensures
        ({
            let error = stored_download_error(object, item, stored);
            &&& stored.key is Err ==> error == Some(
                ErrorView::ReadDownloadKey { path: object, reason: stored.key->Err_0@ },
            )
            &&& stored.key is Ok && stored.key->Ok_0@ != item.key ==> error == Some(
                ErrorView::DownloadKeyCollision,
            )
            &&& stored.key is Ok && stored.key->Ok_0@ == item.key ==> {
                &&& stored.data is Err ==> error == Some(
                    ErrorView::ReadDownload {
                        path: path_join(object, encode_utf8("data"@)),
                        reason: stored.data->Err_0@,
                    },
                )
                &&& stored.data is Ok ==> {
                    let data = stored.data->Ok_0;
                    &&& !data.regular ==> error == Some(ErrorView::DownloadNotFile)
                    &&& data.regular ==> forall|size: u64|
                        item.size == Some(size) && size != data.size ==> error == Some(
                            ErrorView::SizeConflict {
                                key: item.key,
                                expected_size: size,
                                actual_size: data.size,
                            },
                        )
                    &&& data.regular && (item.size is None || item.size == Some(data.size))
                        && item.digest is Some ==> match stored.contents->0 {
                        Err(reason) => error == Some(ErrorView::Failed { reason: reason@ }),
                        Ok(digester) => {
                            let actual = "sha256:"@ + hex_text(sha256(digester@));
                            item.digest->0 != actual ==> error == Some(
                                ErrorView::DigestConflict {
                                    key: item.key,
                                    expected_digest: item.digest->0,
                                    actual_digest: actual,
                                },
                            )
                        },
                    }
                }
            }
        }),
{
}

/// A complete download is accepted exactly where it has the size and the digest of the
/// item, as far as the item gives them; the size is looked at first.
pub proof fn received_download_is_what_was_asked_for(item: ItemView, bytes: Seq<u8>)
    ensures
        ({
            let error = received_error(item, bytes);
            let actual = "sha256:"@ + hex_text(sha256(bytes));
            &&& error is None <==> (item.size is Some ==> item.size->0 == bytes.len()) && (
            item.digest is Some ==> item.digest->0 == actual)
            &&& item.size is Some && item.size->0 != bytes.len() ==> error == Some(
                ErrorView::SizeMismatch {
                    key: item.key,
                    expected_size: item.size->0,
                    actual_size: bytes.len() as u64,
                },
            )
            &&& (item.size is Some ==> item.size->0 == bytes.len()) && item.digest is Some
                && item.digest->0 != actual ==> error == Some(
                ErrorView::DigestMismatch {
                    key: item.key,
                    expected_digest: item.digest->0,
                    actual_digest: actual,
                },
            )
        }),
{
}

/// A download comes from the local path that a `file` URL names, or is fetched by an
/// `http` or `https` URL as it stands; no other URL is used.
pub proof fn downloads_come_from_their_url(
    url: Seq<char>,
    parsed: Result<Seq<char>, Seq<char>>,
    local: Option<Seq<u8>>,
)
    ensures
        ({
            let source = source_given(url, parsed, local);
            let is_file = parsed == Ok::<Seq<char>, Seq<char>>("file"@);
            let is_remote = parsed == Ok::<Seq<char>, Seq<char>>("http"@) || parsed == Ok::<
                Seq<char>,
                Seq<char>,
            >("https"@);
            &&& parsed is Err ==> source == Err::<SourceView, ErrorView>(
                ErrorView::UnparsedUrl { reason: parsed->Err_0 },
            )
            &&& is_file && local is Some ==> source == Ok::<SourceView, ErrorView>(
                SourceView::Local { path: local->0 },
            )
            &&& is_file && local is None ==> source == Err::<SourceView, ErrorView>(
                ErrorView::InvalidFileUrl { url },
            )
            &&& is_remote ==> source == Ok::<SourceView, ErrorView>(SourceView::Remote { url })
            &&& parsed is Ok && !is_file && !is_remote ==> source == Err::<SourceView, ErrorView>(
                ErrorView::UnsupportedScheme { scheme: parsed->Ok_0 },
            )
        }),
{
    reveal_strlit("file");
    reveal_strlit("http");
    reveal_strlit("https");
    assert("file"@[0] == 'f' && "http"@[0] == 'h' && "https"@[0] == 'h');
}

proof fn lemma_below_has_parent(base: Seq<u8>, path: Seq<u8>)
    requires
        is_below(base, path),
    ensures
        has_parent(path),
{
    let names = choose|names: Seq<Seq<u8>>|
        names.len() > 0 && path_components(path) == path_components(base) + #[trigger] named_steps(
            names,
        );
    assert(path_components(path).last() == named_steps(names).last());
}

/// What an acceptable item is made of: the download itself, copied to its place as a
/// plain file or as an executable, or what the download holds as an archive.
pub proof fn items_are_made_of_their_download(
    item: ItemView,
    artifact: ArtifactView,
    root: Seq<u8>,
)
    requires
        action_error(item.action) is None,
    ensures
        match item.action {
            PlanItemView::InstallFile { to } => item_work(item, artifact, root) == (WorkView {
                steps: seq![
                    StepView::CopyNew {
                        from: artifact.path,
                        to: path_join(root, to),
                        mode: 0o644,
                    },
                ],
                failure: None,
            }),
            PlanItemView::InstallBin { name } => item_work(item, artifact, root) == (WorkView {
                steps: seq![
                    StepView::CopyNew {
                        from: artifact.path,
                        to: path_join(path_join(root, encode_utf8("bin"@)), encode_utf8(name)),
                        mode: 0o755,
                    },
                ],
                failure: None,
            }),
            PlanItemView::UnpackDir { kind, strip, to } => item_work(item, artifact, root)
                == unpack_dir_work(
                archive_entries(kind, artifact.data),
                strip as nat,
                if path_components(to) == seq![ComponentView::CurDir] {
                    root
                } else {
                    path_join(root, to)
                },
            ),
            PlanItemView::UnpackFile { kind, from, to } => item_work(item, artifact, root)
                == unpack_file_work(
                archive_entries(kind, artifact.data),
                from,
                path_join(root, to),
            ),
        },
{
    match item.action {
        PlanItemView::InstallFile { to } => {
            accepted_path_stays_below(root, to);
            lemma_below_has_parent(root, path_join(root, to));
        },
        PlanItemView::InstallBin { name } => {
            accepted_path_stays_below(bin_path(root), encode_utf8(name));
            lemma_below_has_parent(bin_path(root), path_join(bin_path(root), encode_utf8(name)));
        },
        _ => {},
    }
}

proof fn lemma_items_in_order(
    items: Seq<ItemView>,
    count: int,
    artifacts: Seq<ArtifactView>,
    root: Seq<u8>,
)
    requires
        0 <= count <= items.len(),
    ensures
        items_work(items.take(count), artifacts, root).failure is None <==> forall|i: int|
            0 <= i < count ==> (#[trigger] item_work(items[i], artifacts[i], root)).failure is None,
        items_work(items.take(count), artifacts, root).failure is None ==> items_work(
            items.take(count),
            artifacts,
            root,
        ).steps == Seq::new(
            count as nat,
            |i: int| item_work(items[i], artifacts[i], root).steps,
        ).flatten(),
    decreases count,
{
    let parts = Seq::new(count as nat, |i: int| item_work(items[i], artifacts[i], root).steps);
    let work = items_work(items.take(count), artifacts, root);
    if count == 0 {
        assert(items.take(count).len() == 0);
        assert(work.steps =~= parts.flatten());
    } else {
        lemma_items_in_order(items, count - 1, artifacts, root);
        let fewer = Seq::new(
            (count - 1) as nat,
            |i: int| item_work(items[i], artifacts[i], root).steps,
        );
        assert(items.take(count).drop_last() == items.take(count - 1));
        assert(items.take(count).last() == items[count - 1]);
        let own = item_work(items[count - 1], artifacts[count - 1], root);
        assert(parts =~= fewer.push(own.steps));
        fewer.lemma_flatten_push(own.steps);
        if work.failure is None {
            assert forall|i: int| 0 <= i < count implies (#[trigger] item_work(
                items[i],
                artifacts[i],
                root,
            )).failure is None by {
                if i == count - 1 {
                    assert(own.failure is None);
                }
            }
        }
    }
}

/// A plan with one download for each item is carried out without a failure exactly where
/// each item is, on its own download. The steps then are those that make the root, those
/// of each item on its own download, in the order of the plan, and the one that gives
/// all directories their mode.
pub proof fn each_item_is_made_of_its_own_download(
    plan: PlanView,
    artifacts: Seq<ArtifactView>,
    root: Seq<u8>,
)
    requires
        plan.items.len() == artifacts.len(),
    ensures
        ({
            let work = plan_work(plan, artifacts, root);
            &&& work.failure is None <==> forall|i: int|
                0 <= i < plan.items.len() ==> (#[trigger] item_work(
                    plan.items[i],
                    artifacts[i],
                    root,
                )).failure is None
            &&& work.failure is None ==> work.steps == seq![
                StepView::CreateTree { path: root },
                StepView::SetMode { path: root, mode: 0o755 },
            ] + Seq::new(
                plan.items.len(),
                |i: int| item_work(plan.items[i], artifacts[i], root).steps,
            ).flatten() + seq![StepView::Normalize { path: root, mode: 0o755 }]
        }),
{
    lemma_items_in_order(plan.items, plan.items.len() as int, artifacts, root);
    assert(plan.items.take(plan.items.len() as int) == plan.items);
}

/// The first item that fails ends the plan: nothing is done behind what that item did,
/// and the failure names the item and says why. Without one download for each item,
/// nothing is done at all.
pub proof fn first_failing_item_ends_the_plan(
    plan: PlanView,
    artifacts: Seq<ArtifactView>,
    root: Seq<u8>,
    index: int,
)
    ensures
        plan.items.len() != artifacts.len() ==> plan_work(plan, artifacts, root) == (WorkView {
            steps: Seq::empty(),
            failure: Some(ErrorView::DownloadCount),
        }),
        ({
            &&& plan.items.len() == artifacts.len()
            &&& 0 <= index < plan.items.len()
            &&& item_work(plan.items[index], artifacts[index], root).failure is Some
            &&& forall|i: int|
                0 <= i < index ==> (#[trigger] item_work(
                    plan.items[i],
                    artifacts[i],
                    root,
                )).failure is None
        }) ==> plan_work(plan, artifacts, root) == (WorkView {
            steps: seq![
                StepView::CreateTree { path: root },
                StepView::SetMode { path: root, mode: 0o755 },
            ] + Seq::new(
                (index + 1) as nat,
                |i: int| item_work(plan.items[i], artifacts[i], root).steps,
            ).flatten(),
            failure: Some(
                ErrorView::ExecuteItem {
                    key: plan.items[index].key,
                    cause_text: error_message(
                        item_work(plan.items[index], artifacts[index], root).failure->0,
                    ),
                },
            ),
        }),
{
    if {
        &&& plan.items.len() == artifacts.len()
        &&& 0 <= index < plan.items.len()
        &&& item_work(plan.items[index], artifacts[index], root).failure is Some
        &&& forall|i: int|
            0 <= i < index ==> (#[trigger] item_work(
                plan.items[i],
                artifacts[i],
                root,
            )).failure is None
    } {
        let items = plan.items;
        lemma_items_in_order(items, index, artifacts, root);
        assert(items.take(index + 1).drop_last() == items.take(index));
        assert(items.take(index + 1).last() == items[index]);
        lemma_items_failure_is_final(items, artifacts, root, index + 1);
        let fewer = Seq::new(
            index as nat,
            |i: int| item_work(items[i], artifacts[i], root).steps,
        );
        let own = item_work(items[index], artifacts[index], root).steps;
        assert(Seq::new(
            (index + 1) as nat,
            |i: int| item_work(items[i], artifacts[i], root).steps,
        ) =~= fewer.push(own));
        fewer.lemma_flatten_push(own);
    }
}

proof fn lemma_in_flat(parts: Seq<Seq<StepView>>, index: int, step: StepView)
    requires
        0 <= index < parts.len(),
        parts[index].contains(step),
    ensures
        parts.flatten().contains(step),
    decreases parts.len(),
{
    let rest = parts.drop_first();
    if index == 0 {
        let k = choose|k: int| 0 <= k < parts[0].len() && parts[0][k] == step;
        assert(parts.flatten()[k] == step);
    } else {
        assert(rest[index - 1] == parts[index]);
        lemma_in_flat(rest, index - 1, step);
        let k = choose|k: int| 0 <= k < rest.flatten().len() && rest.flatten()[k] == step;
        assert(parts.flatten()[parts[0].len() + k] == step);
    }
}

/// What a plan copies for an item is the download of that item, whichever place the item
/// has in the plan.
pub proof fn copies_come_from_their_own_download(
    plan: PlanView,
    artifacts: Seq<ArtifactView>,
    root: Seq<u8>,
    index: int,
)
    requires
        plan_error(plan) is None,
        plan_work(plan, artifacts, root).failure is None,
        plan.items.len() == artifacts.len(),
        0 <= index < plan.items.len(),
    ensures
        match plan.items[index].action {
            PlanItemView::InstallFile { to } => plan_work(plan, artifacts, root).steps.contains(
                StepView::CopyNew {
                    from: artifacts[index].path,
                    to: path_join(root, to),
                    mode: 0o644,
                },
            ),
            PlanItemView::InstallBin { name } => plan_work(plan, artifacts, root).steps.contains(
                StepView::CopyNew {
                    from: artifacts[index].path,
                    to: path_join(path_join(root, encode_utf8("bin"@)), encode_utf8(name)),
                    mode: 0o755,
                },
            ),
            _ => true,
        },
{
    let item = plan.items[index];
    accepted_plan_has_accepted_items(plan, index);
    items_are_made_of_their_download(item, artifacts[index], root);
    each_item_is_made_of_its_own_download(plan, artifacts, root);
    let parts = Seq::new(
        plan.items.len(),
        |i: int| item_work(plan.items[i], artifacts[i], root).steps,
    );
    let own = item_work(item, artifacts[index], root).steps;
    assert(parts[index] == own);
    if item.action is InstallFile || item.action is InstallBin {
        let step = own[0];
        assert(own.contains(step));
        lemma_in_flat(parts, index, step);
        let k = choose|k: int| 0 <= k < parts.flatten().len() && parts.flatten()[k] == step;
        assert(plan_work(plan, artifacts, root).steps[2 + k] == step);
    }
}

proof fn lemma_sides(
    opening: Seq<StepView>,
    parts: Seq<Seq<StepView>>,
    closing: Seq<StepView>,
    index: int,
)
    requires
        0 <= index < parts.len(),
    ensures
        opening + parts.flatten() + closing == (opening + parts.take(index).flatten())
            + parts[index] + (parts.skip(index + 1).flatten() + closing),
{
    let first = parts.take(index);
    let last = parts.skip(index + 1);
    assert(first.push(parts[index]) + last =~= parts);
    vstd::seq_lib::lemma_flatten_concat(first.push(parts[index]), last);
    first.lemma_flatten_push(parts[index]);
    assert(opening + (first.flatten() + parts[index] + last.flatten()) + closing =~= (opening
        + first.flatten()) + parts[index] + (last.flatten() + closing));
}

/// Another download for one item changes the steps of that item, and no others: what is
/// done on either side of them stays as it is.
pub proof fn another_download_changes_one_item(
    plan: PlanView,
    artifacts: Seq<ArtifactView>,
    root: Seq<u8>,
    index: int,
    other: ArtifactView,
) -> (sides: (Seq<StepView>, Seq<StepView>))
    requires
        plan.items.len() == artifacts.len(),
        0 <= index < plan.items.len(),
        plan_work(plan, artifacts, root).failure is None,
        item_work(plan.items[index], other, root).failure is None,
    ensures
        plan_work(plan, artifacts, root).steps == sides.0 + item_work(
            plan.items[index],
            artifacts[index],
            root,
        ).steps + sides.1,
        plan_work(plan, artifacts.update(index, other), root) == (WorkView {
            steps: sides.0 + item_work(plan.items[index], other, root).steps + sides.1,
            failure: None,
        }),
{
    let changed = artifacts.update(index, other);
    let items = plan.items;
    each_item_is_made_of_its_own_download(plan, artifacts, root);
    each_item_is_made_of_its_own_download(plan, changed, root);
    assert forall|i: int| 0 <= i < items.len() implies (#[trigger] item_work(
        items[i],
        changed[i],
        root,
    )).failure is None by {
        assert(item_work(items[i], artifacts[i], root).failure is None);
    }
    let parts = Seq::new(items.len(), |i: int| item_work(items[i], artifacts[i], root).steps);
    let others = Seq::new(items.len(), |i: int| item_work(items[i], changed[i], root).steps);
    let opening = seq![
        StepView::CreateTree { path: root },
        StepView::SetMode { path: root, mode: 0o755 },
    ];
    let closing = seq![StepView::Normalize { path: root, mode: 0o755 }];
    lemma_sides(opening, parts, closing, index);
    lemma_sides(opening, others, closing, index);
    assert(parts.take(index) =~= others.take(index));
    assert(parts.skip(index + 1) =~= others.skip(index + 1));
    let before = opening + parts.take(index).flatten();
    let after = parts.skip(index + 1).flatten() + closing;
    (before, after)
}

/// A file is copied as it is to a place that names an entry of a directory, and to no
/// other.
pub proof fn copies_need_a_place(from: Seq<u8>, to: Seq<u8>, mode: u32)
    ensures
        copy_work(from, to, mode) == (if path_components(to).len() > 0 && !(path_components(
            to,
        ).last() is RootDir) {
            WorkView { steps: seq![StepView::CopyNew { from, to, mode }], failure: None }
        } else {
            WorkView { steps: Seq::empty(), failure: Some(ErrorView::TargetWithoutParent) }
        }),
{
}

/// The mathematical form of a list of artifacts has where each artifact is and what it
/// holds, in their places.
pub proof fn artifacts_keep_their_order(artifacts: Seq<Artifact>, index: int)
    ensures
        artifact_views(artifacts).len() == artifacts.len(),
        0 <= index < artifacts.len() ==> artifact_views(artifacts)[index] == (ArtifactView {
            path: artifacts[index].path@,
            data: artifacts[index].data@,
        }),
        forall|path: Vec<u8>| #[trigger] optional_path(Some(path)) == Some(path@),
        optional_path(None) is None,
{
}

} // verus!
