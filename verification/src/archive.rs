//! Archives: which of their entries are acceptable, and where they go.

use vstd::prelude::*;

use crate::error::{Error, ErrorView};
use crate::path::{
    components, join_path, same_path, strip_components, validate_relative_path, Component,
};
use crate::plan::ArchiveKind;
use crate::tarball::{archive_reader, Member, MemberView};

verus! {

use crate::path::{
    component_views,
    is_below,
    named_steps,
    path_components,
    path_join,
    relative_path_error,
    stripped_path,
    stripped_path_stays_below,
};
use crate::tarball::{archive_entries, entry_view, entry_views};

/// The mode of a file that is not executable, `rw-r--r--`.
pub const FILE_MODE: u32 = 0o644;

/// The mode of an executable file and of a directory, `rwxr-xr-x`.
pub const EXECUTABLE_MODE: u32 = 0o755;

/// One thing that is done to an installation.
#[derive(Debug)]
pub enum Step {
    /// Creates a directory and what leads to it, where they are missing.
    CreateTree { path: Vec<u8> },
    /// Gives a directory its mode.
    SetMode { path: Vec<u8>, mode: u32 },
    /// Copies a file to a place where nothing is yet, and gives it its mode.
    CopyNew { from: Vec<u8>, to: Vec<u8>, mode: u32 },
    /// Writes a file at a place where nothing is yet, and gives it its mode.
    WriteNew { to: Vec<u8>, contents: Vec<u8>, mode: u32 },
    /// Writes the beginning of a file at a place where nothing is yet.
    BeginNew { to: Vec<u8>, contents: Vec<u8> },
    /// Creates a directory unless it is there, and gives it its mode.
    EnsureDirectory { path: Vec<u8>, mode: u32 },
    /// Gives a directory and all directories below it their mode.
    Normalize { path: Vec<u8>, mode: u32 },
}

/// The mathematical form of [`Step`].
pub enum StepView {
    CreateTree { path: Seq<u8> },
    SetMode { path: Seq<u8>, mode: u32 },
    CopyNew { from: Seq<u8>, to: Seq<u8>, mode: u32 },
    WriteNew { to: Seq<u8>, contents: Seq<u8>, mode: u32 },
    BeginNew { to: Seq<u8>, contents: Seq<u8> },
    EnsureDirectory { path: Seq<u8>, mode: u32 },
    Normalize { path: Seq<u8>, mode: u32 },
}

impl View for Step {
    type V = StepView;

    open spec fn view(&self) -> StepView {
        match self {
            Step::CreateTree { path } => StepView::CreateTree { path: path@ },
            Step::SetMode { path, mode } => StepView::SetMode { path: path@, mode: *mode },
            Step::CopyNew { from, to, mode } => StepView::CopyNew {
                from: from@,
                to: to@,
                mode: *mode,
            },
            Step::WriteNew { to, contents, mode } => StepView::WriteNew {
                to: to@,
                contents: contents@,
                mode: *mode,
            },
            Step::BeginNew { to, contents } => StepView::BeginNew {
                to: to@,
                contents: contents@,
            },
            Step::EnsureDirectory { path, mode } => StepView::EnsureDirectory {
                path: path@,
                mode: *mode,
            },
            Step::Normalize { path, mode } => StepView::Normalize { path: path@, mode: *mode },
        }
    }
}

/// The mathematical form of a list of steps.
pub open spec fn step_views(steps: Seq<Step>) -> Seq<StepView> {
    steps.map_values(|step: Step| step@)
}

/// What is done to an installation, in order, and what goes wrong afterwards, if
/// anything does.
#[derive(Debug)]
pub struct Work {
    pub steps: Vec<Step>,
    pub failure: Option<Error>,
}

/// The mathematical form of [`Work`].
pub struct WorkView {
    pub steps: Seq<StepView>,
    pub failure: Option<ErrorView>,
}

/// The mathematical form of an optional error.
pub open spec fn failure_view(failure: Option<Error>) -> Option<ErrorView> {
    match failure {
        Some(error) => Some(error@),
        None => None,
    }
}

impl View for Work {
    type V = WorkView;

    open spec fn view(&self) -> WorkView {
        WorkView { steps: step_views(self.steps@), failure: failure_view(self.failure) }
    }
}

/// No steps, and an error.
pub open spec fn failed_work(error: ErrorView) -> WorkView {
    WorkView { steps: Seq::empty(), failure: Some(error) }
}

/// One step.
pub open spec fn single_step(step: StepView) -> WorkView {
    WorkView { steps: seq![step], failure: None }
}

/// No steps.
pub open spec fn no_work() -> WorkView {
    WorkView { steps: Seq::empty(), failure: None }
}

/// One piece of work, and then another one, unless the first one fails.
pub open spec fn work_in_turn(first: WorkView, second: WorkView) -> WorkView {
    if first.failure is Some {
        first
    } else {
        WorkView { steps: first.steps + second.steps, failure: second.failure }
    }
}

/// What is wrong with an entry of an archive, if anything is.
pub open spec fn member_error(member: MemberView) -> Option<ErrorView> {
    match relative_path_error(member.path, false) {
        Some(cause) => Some(ErrorView::UnsafeArchivePath { path: member.path, cause }),
        None => if member.directory || member.file {
            None
        } else {
            Some(ErrorView::UnsupportedEntry { path: member.path })
        },
    }
}

/// What is wrong with the next entry of an archive, if anything is.
pub open spec fn entry_error(entry: Result<MemberView, Seq<char>>) -> Option<ErrorView> {
    match entry {
        Ok(member) => member_error(member),
        Err(reason) => Some(ErrorView::UnreadableArchive { reason }),
    }
}

/// The mode that a file gets: executable for all where it was for any.
pub open spec fn normal_mode(mode: u32) -> u32 {
    if mode & 0o111 == 0 {
        FILE_MODE
    } else {
        EXECUTABLE_MODE
    }
}

/// The mode of an entry as its header gives it, or none of the permissions.
pub open spec fn header_mode(member: MemberView) -> u32 {
    match member.mode {
        Some(mode) => mode,
        None => 0,
    }
}

/// The failure that damaged contents are.
pub open spec fn damage_work(damage: Option<Seq<char>>) -> WorkView {
    match damage {
        Some(reason) => failed_work(ErrorView::UnreadableArchive { reason }),
        None => no_work(),
    }
}

/// Whether a path names an entry of a directory.
pub open spec fn has_parent(path: Seq<u8>) -> bool {
    let steps = path_components(path);
    steps.len() > 0 && !(steps.last() is RootDir)
}

/// A step that needs a place in a directory.
pub open spec fn placed_step(target: Seq<u8>, step: StepView) -> WorkView {
    if has_parent(target) {
        single_step(step)
    } else {
        failed_work(ErrorView::TargetWithoutParent)
    }
}

/// How the contents of a file are written: to their end, or as far as they came
/// where they break off.
pub open spec fn write_step(member: MemberView, to: Seq<u8>) -> StepView {
    if member.damage is Some {
        StepView::BeginNew { to, contents: member.contents }
    } else {
        StepView::WriteNew {
            to,
            contents: member.contents,
            mode: normal_mode(header_mode(member)),
        }
    }
}

/// What is done for an acceptable entry when an archive goes below a directory.
pub open spec fn dir_member_work(
    member: MemberView,
    strip: nat,
    destination: Seq<u8>,
) -> WorkView {
    match stripped_path(member.path, strip) {
        None => no_work(),
        Some(rest) => if rest.len() == 0 {
            no_work()
        } else {
            let target = path_join(destination, rest);
            if member.directory {
                single_step(StepView::EnsureDirectory { path: target, mode: EXECUTABLE_MODE })
            } else {
                placed_step(target, write_step(member, target))
            }
        },
    }
}

/// What is done for an entry when an archive goes below a directory.
pub open spec fn dir_entry_work(
    entry: Result<MemberView, Seq<char>>,
    strip: nat,
    destination: Seq<u8>,
) -> WorkView {
    match entry_error(entry) {
        Some(error) => failed_work(error),
        None => work_in_turn(
            dir_member_work(entry->Ok_0, strip, destination),
            damage_work(entry->Ok_0.damage),
        ),
    }
}

/// What is done for the entries of an archive that goes below a directory: the
/// work for each of them in turn, up to the first failure.
pub open spec fn dir_entries_work(
    entries: Seq<Result<MemberView, Seq<char>>>,
    strip: nat,
    destination: Seq<u8>,
) -> WorkView
    decreases entries.len(),
{
    if entries.len() == 0 {
        no_work()
    } else {
        work_in_turn(
            dir_entries_work(entries.drop_last(), strip, destination),
            dir_entry_work(entries.last(), strip, destination),
        )
    }
}

/// What is done when an archive goes below a directory.
pub open spec fn unpack_dir_work(
    entries: Seq<Result<MemberView, Seq<char>>>,
    strip: nat,
    destination: Seq<u8>,
) -> WorkView {
    work_in_turn(
        single_step(StepView::CreateTree { path: destination }),
        dir_entries_work(entries, strip, destination),
    )
}

/// Whether an entry is the wanted file.
pub open spec fn is_wanted(entry: Result<MemberView, Seq<char>>, source: Seq<u8>) -> bool {
    entry is Ok && path_components(entry->Ok_0.path) == path_components(source)
}

/// Whether the wanted file is among the entries.
pub open spec fn wanted_among(
    entries: Seq<Result<MemberView, Seq<char>>>,
    source: Seq<u8>,
) -> bool {
    exists|i: int| 0 <= i < entries.len() && is_wanted(#[trigger] entries[i], source)
}

/// What is done for the entry at an index when one file of an archive is wanted.
pub open spec fn file_entry_work(
    entries: Seq<Result<MemberView, Seq<char>>>,
    index: int,
    source: Seq<u8>,
    destination: Seq<u8>,
) -> WorkView {
    let entry = entries[index];
    let work = if !is_wanted(entry, source) {
        no_work()
    } else if wanted_among(entries.take(index), source) {
        failed_work(ErrorView::DuplicateEntry { path: source })
    } else if !entry->Ok_0.file {
        failed_work(ErrorView::EntryNotFile)
    } else {
        placed_step(destination, write_step(entry->Ok_0, destination))
    };
    match entry_error(entry) {
        Some(error) => failed_work(error),
        None => work_in_turn(work, damage_work(entry->Ok_0.damage)),
    }
}

/// What is done for the first entries of an archive of which one file is wanted:
/// the work for each of them in turn, up to the first failure.
pub open spec fn file_entries_work(
    entries: Seq<Result<MemberView, Seq<char>>>,
    count: int,
    source: Seq<u8>,
    destination: Seq<u8>,
) -> WorkView
    decreases count,
{
    if count <= 0 {
        no_work()
    } else {
        work_in_turn(
            file_entries_work(entries, count - 1, source, destination),
            file_entry_work(entries, count - 1, source, destination),
        )
    }
}

/// What is done when one file of an archive is wanted. That it is not there is
/// found out at the end.
pub open spec fn unpack_file_work(
    entries: Seq<Result<MemberView, Seq<char>>>,
    source: Seq<u8>,
    destination: Seq<u8>,
) -> WorkView {
    work_in_turn(
        file_entries_work(entries, entries.len() as int, source, destination),
        if wanted_among(entries, source) {
            no_work()
        } else {
            failed_work(ErrorView::MissingEntry { path: source })
        },
    )
}

/// The mode that a file of an archive gets.
pub fn normalized_archive_mode(mode: u32) -> (normal: u32)
    ensures
        normal == normal_mode(mode),
{
    if mode & 0o111 == 0 {
        FILE_MODE
    } else {
        EXECUTABLE_MODE
    }
}

/// Accepts the path of an archive entry that stays below the target.
pub fn validate_archive_path(path: &[u8]) -> (result: Result<(), Error>)
    ensures
        match result {
            Ok(()) => relative_path_error(path@, false) is None,
            Err(error) => relative_path_error(path@, false) is Some && error@ == (
            ErrorView::UnsafeArchivePath {
                path: path@,
                cause: relative_path_error(path@, false)->0,
            }),
        },
{
    match validate_relative_path(path, false) {
        Ok(()) => Ok(()),
        Err(cause) => Err(
            Error::UnsafeArchivePath { path: vstd::slice::slice_to_vec(path), cause },
        ),
    }
}

/// Accepts an archive entry that is a directory or a regular file.
pub fn validate_entry_type(directory: bool, file: bool, path: &[u8]) -> (result: Result<(), Error>)
    ensures
        match result {
            Ok(()) => directory || file,
            Err(error) => !directory && !file && error@ == (ErrorView::UnsupportedEntry {
                path: path@,
            }),
        },
{
    if directory || file {
        Ok(())
    } else {
        Err(Error::UnsupportedEntry { path: vstd::slice::slice_to_vec(path) })
    }
}

/// Whether a path names an entry of a directory.
pub fn names_entry(path: &[u8]) -> (placed: bool)
    ensures
        placed == has_parent(path@),
{
    let steps = components(path);
    if steps.len() == 0 {
        return false;
    }
    assert(path_components(path@).last() == component_views(steps@)[steps.len() - 1]);
    match &steps[steps.len() - 1] {
        Component::RootDir => false,
        _ => true,
    }
}

fn checked_entry(entry: &Result<Member, String>) -> (result: Result<(), Error>)
    ensures
        match result {
            Ok(()) => entry_error(entry_view(*entry)) is None,
            Err(error) => entry_error(entry_view(*entry)) == Some(error@),
        },
{
    match entry {
        Ok(member) => {
            match validate_archive_path(member.path.as_slice()) {
                Ok(()) => validate_entry_type(
                    member.directory,
                    member.file,
                    member.path.as_slice(),
                ),
                Err(error) => Err(error),
            }
        },
        Err(reason) => Err(Error::UnreadableArchive { reason: reason.clone() }),
    }
}

fn member_mode(member: &Member) -> (mode: u32)
    ensures
        mode == normal_mode(header_mode(member@)),
{
    normalized_archive_mode(
        match member.mode {
            Some(mode) => mode,
            None => 0,
        },
    )
}

/// How the contents of a file are written.
fn contents_step(member: &Member, to: Vec<u8>) -> (step: Step)
    ensures
        step@ == write_step(member@, to@),
{
    let contents = vstd::slice::slice_to_vec(member.contents.as_slice());
    match &member.damage {
        Some(_) => Step::BeginNew { to, contents },
        None => Step::WriteNew { to, contents, mode: member_mode(member) },
    }
}

/// What is done for one acceptable entry when an archive goes below a directory:
/// nothing, or one step.
fn dir_member_step(member: &Member, strip: usize, destination: &[u8]) -> (result: Result<
    Option<Step>,
    Error,
>)
    ensures
        match result {
            Ok(Some(step)) => dir_member_work(member@, strip as nat, destination@) == single_step(
                step@,
            ),
            Ok(None) => dir_member_work(member@, strip as nat, destination@) == no_work(),
            Err(error) => dir_member_work(member@, strip as nat, destination@) == failed_work(
                error@,
            ),
        },
{
    match strip_components(member.path.as_slice(), strip) {
        None => Ok(None),
        Some(rest) => {
            if rest.len() == 0 {
                return Ok(None);
            }
            let target = join_path(destination, rest.as_slice());
            if member.directory {
                return Ok(Some(Step::EnsureDirectory { path: target, mode: EXECUTABLE_MODE }));
            }
            if !names_entry(target.as_slice()) {
                return Err(Error::TargetWithoutParent);
            }
            Ok(Some(contents_step(member, target)))
        },
    }
}

proof fn lemma_dir_failure_is_final(
    entries: Seq<Result<MemberView, Seq<char>>>,
    strip: nat,
    destination: Seq<u8>,
    count: int,
)
    requires
        0 <= count <= entries.len(),
        dir_entries_work(entries.take(count), strip, destination).failure is Some,
    ensures
        dir_entries_work(entries, strip, destination) == dir_entries_work(
            entries.take(count),
            strip,
            destination,
        ),
    decreases entries.len() - count,
{
    if count == entries.len() {
        assert(entries.take(count) == entries);
    } else {
        assert(entries.take(count + 1).drop_last() == entries.take(count));
        lemma_dir_failure_is_final(entries, strip, destination, count + 1);
    }
}

/// What is done when an archive goes below a directory, given its
/// entries.
pub fn unpack_dir_entries(
    entries: &Vec<Result<Member, String>>,
    strip: u32,
    destination: &[u8],
) -> (work: Work)
    ensures
        work@ == unpack_dir_work(
            entry_views(entries@),
            strip as nat,
            destination@,
        ),
{
    let ghost views = entry_views(entries@);
    let ghost opening = StepView::CreateTree { path: destination@ };
    let mut steps: Vec<Step> = Vec::new();
    steps.push(Step::CreateTree { path: vstd::slice::slice_to_vec(destination) });
    assert(step_views(steps@) =~= seq![opening] + dir_entries_work(
        views.take(0),
        strip as nat,
        destination@,
    ).steps);
    let mut i: usize = 0;
    while i < entries.len()
        invariant
            i <= entries.len(),
            views == entry_views(entries@),
            opening == (StepView::CreateTree { path: destination@ }),
            dir_entries_work(views.take(i as int), strip as nat, destination@).failure
                is None,
            step_views(steps@) == seq![opening] + dir_entries_work(
                views.take(i as int),
                strip as nat,
                destination@,
            ).steps,
        decreases entries.len() - i,
    {
        let ghost before = dir_entries_work(
            views.take(i as int),
            strip as nat,
            destination@,
        );
        let ghost earlier = step_views(steps@);
        proof {
            assert(views.take(i + 1).drop_last() == views.take(i as int));
            assert(views.take(i + 1).last() == entry_view(entries@[i as int]));
        }
        match checked_entry(&entries[i]) {
            Ok(()) => {},
            Err(error) => {
                proof {
                    lemma_dir_failure_is_final(views, strip as nat, destination@, i + 1);
                    assert(before.steps + Seq::<StepView>::empty() =~= before.steps);
                }
                return Work { steps, failure: Some(error) };
            },
        }
        if let Ok(member) = &entries[i] {
            match dir_member_step(member, strip as usize, destination) {
                Ok(Some(step)) => {
                    proof {
                        assert(seq![step@] + Seq::<StepView>::empty() =~= seq![step@]);
                        assert(earlier.push(step@) =~= seq![opening] + (before.steps + seq![
                            step@,
                        ]));
                    }
                    steps.push(step);
                    assert(step_views(steps@) =~= earlier.push(step@));
                },
                Ok(None) => {
                    proof {
                        assert(Seq::<StepView>::empty() + Seq::<StepView>::empty() =~= Seq::<
                            StepView,
                        >::empty());
                        assert(before.steps + Seq::<StepView>::empty() =~= before.steps);
                    }
                },
                Err(error) => {
                    proof {
                        lemma_dir_failure_is_final(views, strip as nat, destination@, i + 1);
                        assert(before.steps + Seq::<StepView>::empty() =~= before.steps);
                    }
                    return Work { steps, failure: Some(error) };
                },
            }
            match &member.damage {
                Some(reason) => {
                    proof {
                        lemma_dir_failure_is_final(views, strip as nat, destination@, i + 1);
                    }
                    return Work {
                        steps,
                        failure: Some(Error::UnreadableArchive { reason: reason.clone() }),
                    };
                },
                None => {},
            }
        }
        i += 1;
    }
    assert(views.take(i as int) == views);
    Work { steps, failure: None }
}

/// What is done when an archive goes below a directory.
pub fn unpack_dir(data: &[u8], kind: ArchiveKind, strip: u32, destination: &[u8]) -> (work: Work)
    ensures
        work@ == archive_dir_work(kind, data@, strip as nat, destination@),
{
    let entries = archive_reader(data, kind);
    unpack_dir_entries(&entries, strip, destination)
}

/// What is done when an archive goes below a directory.
pub open spec fn archive_dir_work(
    kind: ArchiveKind,
    data: Seq<u8>,
    strip: nat,
    destination: Seq<u8>,
) -> WorkView {
    unpack_dir_work(archive_entries(kind, data), strip, destination)
}

/// What is done when one file of an archive is wanted.
pub open spec fn archive_file_work(
    kind: ArchiveKind,
    data: Seq<u8>,
    source: Seq<u8>,
    destination: Seq<u8>,
) -> WorkView {
    unpack_file_work(archive_entries(kind, data), source, destination)
}

proof fn lemma_file_failure_is_final(
    entries: Seq<Result<MemberView, Seq<char>>>,
    source: Seq<u8>,
    destination: Seq<u8>,
    count: int,
    all: int,
)
    requires
        0 <= count <= all,
        file_entries_work(entries, count, source, destination).failure is Some,
    ensures
        file_entries_work(entries, all, source, destination) == file_entries_work(
            entries,
            count,
            source,
            destination,
        ),
    decreases all - count,
{
    if count < all {
        lemma_file_failure_is_final(entries, source, destination, count, all - 1);
    }
}

/// What is done when one file of an archive is wanted, given its
/// entries.
pub fn unpack_file_entries(
    entries: &Vec<Result<Member, String>>,
    source: &[u8],
    destination: &[u8],
) -> (work: Work)
    ensures
        work@ == unpack_file_work(
            entry_views(entries@),
            source@,
            destination@,
        ),
{
    let ghost views = entry_views(entries@);
    let mut steps: Vec<Step> = Vec::new();
    let mut found = false;
    let mut i: usize = 0;
    assert(step_views(steps@) =~= Seq::<StepView>::empty());
    while i < entries.len()
        invariant
            i <= entries.len(),
            views == entry_views(entries@),
            found == wanted_among(views.take(i as int), source@),
            file_entries_work(views, i as int, source@, destination@).failure is None,
            step_views(steps@) == file_entries_work(
                views,
                i as int,
                source@,
                destination@,
            ).steps,
        decreases entries.len() - i,
    {
        let ghost before = file_entries_work(views, i as int, source@, destination@);
        let ghost entry = views[i as int];
        proof {
            assert(entry == entry_view(entries@[i as int]));
            assert(Seq::<StepView>::empty() + Seq::<StepView>::empty() =~= Seq::<
                StepView,
            >::empty());
            assert(before.steps + Seq::<StepView>::empty() =~= before.steps);
            lemma_wanted_among_more(views, source@, i as int);
        }
        match checked_entry(&entries[i]) {
            Ok(()) => {},
            Err(error) => {
                proof {
                    lemma_file_failure_is_final(
                        views,
                        source@,
                        destination@,
                        i + 1,
                        views.len() as int,
                    );
                }
                return Work { steps, failure: Some(error) };
            },
        }
        if let Ok(member) = &entries[i] {
            if same_path(member.path.as_slice(), source) {
                let refused = if found {
                    Some(Error::DuplicateEntry { path: vstd::slice::slice_to_vec(source) })
                } else if !member.file {
                    Some(Error::EntryNotFile)
                } else if !names_entry(destination) {
                    Some(Error::TargetWithoutParent)
                } else {
                    None
                };
                match refused {
                    Some(error) => {
                        proof {
                            lemma_file_failure_is_final(
                                views,
                                source@,
                                destination@,
                                i + 1,
                                views.len() as int,
                            );
                        }
                        return Work { steps, failure: Some(error) };
                    },
                    None => {},
                }
                let step = contents_step(member, vstd::slice::slice_to_vec(destination));
                proof {
                    assert(seq![step@] + Seq::<StepView>::empty() =~= seq![step@]);
                    assert(before.steps.push(step@) =~= before.steps + seq![step@]);
                }
                steps.push(step);
                assert(step_views(steps@) =~= before.steps.push(step@));
                found = true;
            }
            match &member.damage {
                Some(reason) => {
                    proof {
                        lemma_file_failure_is_final(
                            views,
                            source@,
                            destination@,
                            i + 1,
                            views.len() as int,
                        );
                    }
                    return Work {
                        steps,
                        failure: Some(Error::UnreadableArchive { reason: reason.clone() }),
                    };
                },
                None => {},
            }
        }
        i += 1;
    }
    proof {
        assert(views.take(i as int) == views);
        let all = file_entries_work(views, i as int, source@, destination@);
        assert(all.steps + Seq::<StepView>::empty() =~= all.steps);
    }
    if found {
        Work { steps, failure: None }
    } else {
        Work {
            steps,
            failure: Some(Error::MissingEntry { path: vstd::slice::slice_to_vec(source) }),
        }
    }
}

proof fn lemma_wanted_among_more(
    entries: Seq<Result<MemberView, Seq<char>>>,
    source: Seq<u8>,
    count: int,
)
    requires
        0 <= count < entries.len(),
    ensures
        wanted_among(entries.take(count + 1), source) == (wanted_among(entries.take(count), source)
            || is_wanted(entries[count], source)),
{
    let more = entries.take(count + 1);
    if wanted_among(entries.take(count), source) {
        let i = choose|i: int|
            0 <= i < entries.take(count).len() && is_wanted(
                #[trigger] entries.take(count)[i],
                source,
            );
        assert(is_wanted(more[i], source));
    }
    if is_wanted(entries[count], source) {
        assert(is_wanted(more[count], source));
    }
    if wanted_among(more, source) {
        let i = choose|i: int| 0 <= i < more.len() && is_wanted(#[trigger] more[i], source);
        if i < count {
            assert(is_wanted(entries.take(count)[i], source));
        }
    }
}

/// What is done when one file of an archive is wanted.
pub fn unpack_file(
    data: &[u8],
    kind: ArchiveKind,
    source: &[u8],
    destination: &[u8],
) -> (work: Work)
    ensures
        work@ == archive_file_work(kind, data@, source@, destination@),
{
    let entries = archive_reader(data, kind);
    unpack_file_entries(&entries, source, destination)
}

/// Where a step acts.
pub open spec fn step_target(step: StepView) -> Seq<u8> {
    match step {
        StepView::CreateTree { path } => path,
        StepView::SetMode { path, .. } => path,
        StepView::CopyNew { to, .. } => to,
        StepView::WriteNew { to, .. } => to,
        StepView::BeginNew { to, .. } => to,
        StepView::EnsureDirectory { path, .. } => path,
        StepView::Normalize { path, .. } => path,
    }
}

/// Whether all steps act at a place or below it.
pub open spec fn stays_within(steps: Seq<StepView>, base: Seq<u8>) -> bool {
    forall|i: int|
        0 <= i < steps.len() ==> step_target(#[trigger] steps[i]) == base || is_below(
            base,
            step_target(steps[i]),
        )
}

proof fn lemma_dir_entries_stay_within(
    entries: Seq<Result<MemberView, Seq<char>>>,
    strip: nat,
    destination: Seq<u8>,
)
    ensures
        stays_within(dir_entries_work(entries, strip, destination).steps, destination),
    decreases entries.len(),
{
    if entries.len() > 0 {
        lemma_dir_entries_stay_within(entries.drop_last(), strip, destination);
        let entry = entries.last();
        if entry_error(entry) is None {
            let member = entry->Ok_0;
            if stripped_path(member.path, strip) is Some {
                stripped_path_stays_below(member.path, strip, destination);
            }
        }
    }
}

/// Whatever an archive holds, unpacking it acts at its destination or below it,
/// and nowhere else.
pub proof fn unpacked_archive_stays_below(
    entries: Seq<Result<MemberView, Seq<char>>>,
    strip: nat,
    destination: Seq<u8>,
)
    ensures
        stays_within(unpack_dir_work(entries, strip, destination).steps, destination),
{
    lemma_dir_entries_stay_within(entries, strip, destination);
}

/// Picking one file out of an archive writes that file or nothing, at its
/// destination; where it does not fail, it writes it.
pub proof fn picked_file_is_all_that_is_written(
    entries: Seq<Result<MemberView, Seq<char>>>,
    source: Seq<u8>,
    destination: Seq<u8>,
)
    ensures
        ({
            let work = unpack_file_work(entries, source, destination);
            &&& work.steps.len() <= 1
            &&& stays_within(work.steps, destination)
            &&& work.failure is None ==> work.steps.len() == 1
        }),
{
    lemma_picked_once(entries, entries.len() as int, source, destination);
    assert(entries.take(entries.len() as int) == entries);
}

proof fn lemma_picked_once(
    entries: Seq<Result<MemberView, Seq<char>>>,
    count: int,
    source: Seq<u8>,
    destination: Seq<u8>,
)
    requires
        0 <= count <= entries.len(),
    ensures
        ({
            let work = file_entries_work(entries, count, source, destination);
            &&& work.steps.len() <= 1
            &&& stays_within(work.steps, destination)
            &&& work.failure is None ==> (work.steps.len() == 1) == wanted_among(
                entries.take(count),
                source,
            )
        }),
    decreases count,
{
    if count > 0 {
        lemma_picked_once(entries, count - 1, source, destination);
        lemma_wanted_among_more(entries, source, count - 1);
    }
}

/// An archive with an entry that is not acceptable cannot be unpacked without a
/// failure, by either action.
pub proof fn unacceptable_entry_is_refused(
    entries: Seq<Result<MemberView, Seq<char>>>,
    index: int,
    strip: nat,
    source: Seq<u8>,
    destination: Seq<u8>,
)
    requires
        0 <= index < entries.len(),
        entry_error(entries[index]) is Some,
    ensures
        unpack_dir_work(entries, strip, destination).failure is Some,
        unpack_file_work(entries, source, destination).failure is Some,
{
    let some = entries.take(index + 1);
    assert(some.drop_last() == entries.take(index));
    assert(some.last() == entries[index]);
    assert(dir_entries_work(some, strip, destination).failure is Some);
    lemma_dir_failure_is_final(entries, strip, destination, index + 1);
    assert(file_entries_work(entries, index + 1, source, destination).failure is Some);
    lemma_file_failure_is_final(
        entries,
        source,
        destination,
        index + 1,
        entries.len() as int,
    );
}

proof fn lemma_stripped_target(path: Seq<u8>, strip: nat, destination: Seq<u8>)
    requires
        relative_path_error(path, false) is None,
    ensures
        stripped_path(path, strip) is Some <==> path_components(path).len() > strip,
        path_components(path).len() > strip ==> {
            &&& stripped_path(path, strip)->0.len() > 0
            &&& has_parent(path_join(destination, stripped_path(path, strip)->0))
        },
{
    if path_components(path).len() > strip {
        stripped_path_stays_below(path, strip, destination);
        let target = path_join(destination, stripped_path(path, strip)->0);
        let names = choose|names: Seq<Seq<u8>>|
            names.len() > 0 && path_components(target) == path_components(destination)
                + #[trigger] named_steps(names);
        assert(path_components(target).last() == named_steps(names).last());
    }
}

proof fn lemma_dir_prefix(
    entries: Seq<Result<MemberView, Seq<char>>>,
    strip: nat,
    destination: Seq<u8>,
)
    ensures
        dir_entries_work(entries, strip, destination).failure is None <==> forall|i: int|
            0 <= i < entries.len() ==> {
                &&& (#[trigger] entries[i]) is Ok
                &&& relative_path_error(entries[i]->Ok_0.path, false) is None
                &&& entries[i]->Ok_0.directory || entries[i]->Ok_0.file
                &&& entries[i]->Ok_0.damage is None
            },
    decreases entries.len(),
{
    if entries.len() > 0 {
        let fewer = entries.drop_last();
        lemma_dir_prefix(fewer, strip, destination);
        let entry = entries.last();
        assert(entries[entries.len() - 1] == entry);
        if entry is Ok && relative_path_error(entry->Ok_0.path, false) is None {
            lemma_stripped_target(entry->Ok_0.path, strip, destination);
        }
        if dir_entries_work(entries, strip, destination).failure is None {
            assert forall|i: int| 0 <= i < entries.len() implies {
                &&& (#[trigger] entries[i]) is Ok
                &&& relative_path_error(entries[i]->Ok_0.path, false) is None
                &&& entries[i]->Ok_0.directory || entries[i]->Ok_0.file
                &&& entries[i]->Ok_0.damage is None
            } by {
                if i < fewer.len() {
                    assert(fewer[i] == entries[i]);
                }
            }
        }
        if forall|i: int|
            0 <= i < entries.len() ==> {
                &&& (#[trigger] entries[i]) is Ok
                &&& relative_path_error(entries[i]->Ok_0.path, false) is None
                &&& entries[i]->Ok_0.directory || entries[i]->Ok_0.file
                &&& entries[i]->Ok_0.damage is None
            } {
            assert forall|i: int| 0 <= i < fewer.len() implies {
                &&& (#[trigger] fewer[i]) is Ok
                &&& relative_path_error(fewer[i]->Ok_0.path, false) is None
                &&& fewer[i]->Ok_0.directory || fewer[i]->Ok_0.file
                &&& fewer[i]->Ok_0.damage is None
            } by {
                assert(fewer[i] == entries[i]);
            }
        }
    }
}

/// An archive is unpacked without a failure exactly where all its entries can be read
/// to their end, are directories or regular files, and have acceptable paths.
pub proof fn sound_archives_are_unpacked(
    entries: Seq<Result<MemberView, Seq<char>>>,
    strip: nat,
    destination: Seq<u8>,
)
    ensures
        unpack_dir_work(entries, strip, destination).failure is None <==> forall|i: int|
            0 <= i < entries.len() ==> {
                &&& (#[trigger] entries[i]) is Ok
                &&& relative_path_error(entries[i]->Ok_0.path, false) is None
                &&& entries[i]->Ok_0.directory || entries[i]->Ok_0.file
                &&& entries[i]->Ok_0.damage is None
            },
{
    lemma_dir_prefix(entries, strip, destination);
}

proof fn lemma_dir_steps(
    entries: Seq<Result<MemberView, Seq<char>>>,
    strip: nat,
    destination: Seq<u8>,
)
    requires
        dir_entries_work(entries, strip, destination).failure is None,
    ensures
        dir_entries_work(entries, strip, destination).steps == entries.filter(
            |entry: Result<MemberView, Seq<char>>|
                path_components(entry->Ok_0.path).len() > strip,
        ).map_values(
            |entry: Result<MemberView, Seq<char>>|
                {
                    let member = entry->Ok_0;
                    let target = path_join(destination, stripped_path(member.path, strip)->0);
                    if member.directory {
                        StepView::EnsureDirectory { path: target, mode: 0o755 }
                    } else {
                        StepView::WriteNew {
                            to: target,
                            contents: member.contents,
                            mode: match member.mode {
                                Some(mode) => if mode & 0o111 == 0 {
                                    0o644
                                } else {
                                    0o755
                                },
                                None => 0o644,
                            },
                        }
                    }
                },
        ),
    decreases entries.len(),
{
    let kept = |entry: Result<MemberView, Seq<char>>|
        path_components(entry->Ok_0.path).len() > strip;
    let step_of = |entry: Result<MemberView, Seq<char>>|
        {
            let member = entry->Ok_0;
            let target = path_join(destination, stripped_path(member.path, strip)->0);
            if member.directory {
                StepView::EnsureDirectory { path: target, mode: 0o755 }
            } else {
                StepView::WriteNew {
                    to: target,
                    contents: member.contents,
                    mode: match member.mode {
                        Some(mode) => if mode & 0o111 == 0 {
                            0o644
                        } else {
                            0o755
                        },
                        None => 0o644,
                    },
                }
            }
        };
    reveal(Seq::filter);
    if entries.len() == 0 {
        assert(dir_entries_work(entries, strip, destination).steps =~= entries.filter(
            kept,
        ).map_values(step_of));
    } else {
        let fewer = entries.drop_last();
        let entry = entries.last();
        lemma_dir_steps(fewer, strip, destination);
        lemma_dir_prefix(entries, strip, destination);
        assert(entries[entries.len() - 1] == entry);
        assert(0u32 & 0o111 == 0) by (bit_vector);
        lemma_stripped_target(entry->Ok_0.path, strip, destination);
        let before = dir_entries_work(fewer, strip, destination).steps;
        let after = dir_entries_work(entries, strip, destination).steps;
        assert(before == fewer.filter(kept).map_values(step_of));
        if kept(entry) {
            assert(seq![step_of(entry)] + Seq::<StepView>::empty() =~= seq![step_of(entry)]);
            assert(after =~= before.push(step_of(entry)));
            assert(fewer.filter(kept).push(entry).map_values(step_of) =~= before.push(
                step_of(entry),
            ));
        } else {
            assert(after =~= before);
        }
    }
}

/// Unpacking an archive without a failure leaves nothing out and adds nothing: behind
/// the step that makes the destination there is one step for each entry with more
/// names than are stripped, in order. A directory is made, and a regular file is
/// written with exactly its contents, however few, at the destination and its other
/// names; it becomes executable where anybody could execute it.
pub proof fn every_entry_is_unpacked(
    entries: Seq<Result<MemberView, Seq<char>>>,
    strip: nat,
    destination: Seq<u8>,
)
    requires
        unpack_dir_work(entries, strip, destination).failure is None,
    ensures
        unpack_dir_work(entries, strip, destination).steps == seq![
            StepView::CreateTree { path: destination },
        ] + entries.filter(
            |entry: Result<MemberView, Seq<char>>|
                path_components(entry->Ok_0.path).len() > strip,
        ).map_values(
            |entry: Result<MemberView, Seq<char>>|
                {
                    let member = entry->Ok_0;
                    let target = path_join(destination, stripped_path(member.path, strip)->0);
                    if member.directory {
                        StepView::EnsureDirectory { path: target, mode: 0o755 }
                    } else {
                        StepView::WriteNew {
                            to: target,
                            contents: member.contents,
                            mode: match member.mode {
                                Some(mode) => if mode & 0o111 == 0 {
                                    0o644
                                } else {
                                    0o755
                                },
                                None => 0o644,
                            },
                        }
                    }
                },
        ),
{
    lemma_dir_steps(entries, strip, destination);
}

/// The first entry that cannot be unpacked ends the work, and says why. What comes
/// before it is unpacked as if the archive ended there, and of contents that break off
/// what came is written, without a mode.
pub proof fn first_bad_entry_ends_unpacking(
    entries: Seq<Result<MemberView, Seq<char>>>,
    index: int,
    strip: nat,
    destination: Seq<u8>,
)
    requires
        0 <= index < entries.len(),
        forall|i: int|
            0 <= i < index ==> {
                &&& (#[trigger] entries[i]) is Ok
                &&& relative_path_error(entries[i]->Ok_0.path, false) is None
                &&& entries[i]->Ok_0.directory || entries[i]->Ok_0.file
                &&& entries[i]->Ok_0.damage is None
            },
        !{
            &&& entries[index] is Ok
            &&& relative_path_error(entries[index]->Ok_0.path, false) is None
            &&& entries[index]->Ok_0.directory || entries[index]->Ok_0.file
            &&& entries[index]->Ok_0.damage is None
        },
    ensures
        ({
            let work = unpack_dir_work(entries, strip, destination);
            let before = unpack_dir_work(entries.take(index), strip, destination);
            &&& before.failure is None
            &&& match entries[index] {
                Err(reason) => work == (WorkView {
                    steps: before.steps,
                    failure: Some(ErrorView::UnreadableArchive { reason }),
                }),
                Ok(member) => match relative_path_error(member.path, false) {
                    Some(cause) => work == (WorkView {
                        steps: before.steps,
                        failure: Some(ErrorView::UnsafeArchivePath { path: member.path, cause }),
                    }),
                    None => if !member.directory && !member.file {
                        work == (WorkView {
                            steps: before.steps,
                            failure: Some(ErrorView::UnsupportedEntry { path: member.path }),
                        })
                    } else {
                        let target = path_join(destination, stripped_path(member.path, strip)->0);
                        work == (WorkView {
                            steps: if path_components(member.path).len() <= strip {
                                before.steps
                            } else if member.directory {
                                before.steps.push(
                                    StepView::EnsureDirectory { path: target, mode: 0o755 },
                                )
                            } else {
                                before.steps.push(
                                    StepView::BeginNew { to: target, contents: member.contents },
                                )
                            },
                            failure: Some(
                                ErrorView::UnreadableArchive { reason: member.damage->0 },
                            ),
                        })
                    },
                },
            }
        }),
{
    let some = entries.take(index + 1);
    let fewer = entries.take(index);
    let entry = entries[index];
    assert(some.drop_last() == fewer);
    assert(some.last() == entry);
    assert forall|i: int| 0 <= i < fewer.len() implies {
        &&& (#[trigger] fewer[i]) is Ok
        &&& relative_path_error(fewer[i]->Ok_0.path, false) is None
        &&& fewer[i]->Ok_0.directory || fewer[i]->Ok_0.file
        &&& fewer[i]->Ok_0.damage is None
    } by {
        assert(fewer[i] == entries[i]);
    }
    lemma_dir_prefix(fewer, strip, destination);
    lemma_dir_prefix(some, strip, destination);
    assert(some[index] == entry);
    assert(dir_entries_work(some, strip, destination).failure is Some);
    lemma_dir_failure_is_final(entries, strip, destination, index + 1);
    if entry is Ok && relative_path_error(entry->Ok_0.path, false) is None {
        lemma_stripped_target(entry->Ok_0.path, strip, destination);
    }
    let opening = seq![StepView::CreateTree { path: destination }];
    let early = dir_entries_work(fewer, strip, destination).steps;
    let own = dir_entry_work(entry, strip, destination).steps;
    assert(unpack_dir_work(entries, strip, destination).steps == opening + (early + own));
    if own.len() == 0 {
        assert(opening + (early + own) =~= opening + early);
    } else {
        assert(own.len() == 1);
        assert(opening + (early + own) =~= (opening + early).push(own[0]));
    }
}

proof fn lemma_file_prefix(
    entries: Seq<Result<MemberView, Seq<char>>>,
    count: int,
    source: Seq<u8>,
    destination: Seq<u8>,
)
    requires
        0 <= count <= entries.len(),
        forall|i: int|
            0 <= i < count ==> {
                &&& (#[trigger] entries[i]) is Ok
                &&& relative_path_error(entries[i]->Ok_0.path, false) is None
                &&& entries[i]->Ok_0.directory || entries[i]->Ok_0.file
                &&& entries[i]->Ok_0.damage is None
                &&& path_components(entries[i]->Ok_0.path) == path_components(source)
                    ==> entries[i]->Ok_0.file && has_parent(destination)
            },
        forall|i: int, j: int|
            0 <= i < j < count && path_components((#[trigger] entries[i])->Ok_0.path)
                == path_components(source) ==> path_components((#[trigger] entries[j])->Ok_0.path)
                != path_components(source),
    ensures
        file_entries_work(entries, count, source, destination).failure is None,
        forall|k: int|
            0 <= k < count && path_components((#[trigger] entries[k])->Ok_0.path)
                == path_components(source) ==> file_entries_work(
                entries,
                count,
                source,
                destination,
            ).steps == seq![
                StepView::WriteNew {
                    to: destination,
                    contents: entries[k]->Ok_0.contents,
                    mode: match entries[k]->Ok_0.mode {
                        Some(mode) => if mode & 0o111 == 0 {
                            0o644
                        } else {
                            0o755
                        },
                        None => 0o644,
                    },
                },
            ],
        (forall|k: int|
            0 <= k < count ==> path_components((#[trigger] entries[k])->Ok_0.path)
                != path_components(source)) ==> file_entries_work(
            entries,
            count,
            source,
            destination,
        ).steps == Seq::<StepView>::empty(),
    decreases count,
{
    if count > 0 {
        lemma_file_prefix(entries, count - 1, source, destination);
        let entry = entries[count - 1];
        let fewer = entries.take(count - 1);
        let before = file_entries_work(entries, count - 1, source, destination).steps;
        let after = file_entries_work(entries, count, source, destination).steps;
        assert(0u32 & 0o111 == 0) by (bit_vector);
        assert(wanted_among(fewer, source) ==> !is_wanted(entry, source)) by {
            if wanted_among(fewer, source) {
                let i = choose|i: int| 0 <= i < fewer.len() && is_wanted(#[trigger] fewer[i], source);
                assert(fewer[i] == entries[i]);
                assert(path_components(entries[i]->Ok_0.path) == path_components(source));
            }
        }
        let nothing = Seq::<StepView>::empty();
        assert(nothing + nothing =~= nothing);
        if is_wanted(entry, source) {
            assert forall|k: int| 0 <= k < count - 1 implies path_components(
                (#[trigger] entries[k])->Ok_0.path,
            ) != path_components(source) by {
                if path_components(entries[k]->Ok_0.path) == path_components(source) {
                    assert(path_components(entries[count - 1]->Ok_0.path) != path_components(
                        source,
                    ));
                }
            }
            let step = write_step(entry->Ok_0, destination);
            assert(seq![step] + nothing =~= seq![step]);
            assert(after =~= seq![step]);
        } else {
            assert(after =~= before);
        }
    }
}

/// The wanted file of a sound archive is written at its destination, with exactly its
/// contents, and nothing else is done.
pub proof fn wanted_file_is_written(
    entries: Seq<Result<MemberView, Seq<char>>>,
    index: int,
    source: Seq<u8>,
    destination: Seq<u8>,
)
    requires
        forall|i: int|
            0 <= i < entries.len() ==> {
                &&& (#[trigger] entries[i]) is Ok
                &&& relative_path_error(entries[i]->Ok_0.path, false) is None
                &&& entries[i]->Ok_0.directory || entries[i]->Ok_0.file
                &&& entries[i]->Ok_0.damage is None
                &&& path_components(entries[i]->Ok_0.path) == path_components(source) <==> i
                    == index
            },
        0 <= index < entries.len(),
        entries[index]->Ok_0.file,
        path_components(destination).len() > 0,
        !(path_components(destination).last() is RootDir),
    ensures
        unpack_file_work(entries, source, destination) == (WorkView {
            steps: seq![
                StepView::WriteNew {
                    to: destination,
                    contents: entries[index]->Ok_0.contents,
                    mode: match entries[index]->Ok_0.mode {
                        Some(mode) => if mode & 0o111 == 0 {
                            0o644
                        } else {
                            0o755
                        },
                        None => 0o644,
                    },
                },
            ],
            failure: None,
        }),
{
    let count = entries.len() as int;
    assert forall|i: int, j: int|
        0 <= i < j < count && path_components((#[trigger] entries[i])->Ok_0.path)
            == path_components(source) implies path_components((#[trigger] entries[j])->Ok_0.path)
        != path_components(source) by {
        assert(entries[i] is Ok && entries[j] is Ok);
    }
    assert(entries[index] is Ok);
    lemma_file_prefix(entries, count, source, destination);
    assert(is_wanted(entries[index], source));
    let steps = file_entries_work(entries, count, source, destination).steps;
    assert(steps + Seq::<StepView>::empty() =~= steps);
}

/// A sound archive without the wanted file is told to be without it, and nothing is
/// done.
pub proof fn missing_file_is_told(
    entries: Seq<Result<MemberView, Seq<char>>>,
    source: Seq<u8>,
    destination: Seq<u8>,
)
    requires
        forall|i: int|
            0 <= i < entries.len() ==> {
                &&& (#[trigger] entries[i]) is Ok
                &&& relative_path_error(entries[i]->Ok_0.path, false) is None
                &&& entries[i]->Ok_0.directory || entries[i]->Ok_0.file
                &&& entries[i]->Ok_0.damage is None
                &&& path_components(entries[i]->Ok_0.path) != path_components(source)
            },
    ensures
        unpack_file_work(entries, source, destination) == (WorkView {
            steps: Seq::empty(),
            failure: Some(ErrorView::MissingEntry { path: source }),
        }),
{
    let count = entries.len() as int;
    assert forall|i: int, j: int|
        0 <= i < j < count && path_components((#[trigger] entries[i])->Ok_0.path)
            == path_components(source) implies path_components((#[trigger] entries[j])->Ok_0.path)
        != path_components(source) by {
        assert(entries[i] is Ok);
    }
    assert forall|k: int| 0 <= k < count implies path_components((#[trigger] entries[k])->Ok_0.path)
        != path_components(source) by {
        assert(entries[k] is Ok);
    }
    lemma_file_prefix(entries, count, source, destination);
    if wanted_among(entries, source) {
        let i = choose|i: int| 0 <= i < entries.len() && is_wanted(#[trigger] entries[i], source);
        assert(path_components(entries[i]->Ok_0.path) != path_components(source));
    }
    let nothing = Seq::<StepView>::empty();
    assert(nothing + nothing =~= nothing);
}

/// The first entry that stands in the way of picking a file ends the work, and says
/// why: an entry that cannot be unpacked, a second one for the wanted file, a wanted
/// entry that is no file, a destination that names nothing, or contents that break
/// off. What came of the wanted contents is written, without a mode.
pub proof fn first_obstacle_ends_picking(
    entries: Seq<Result<MemberView, Seq<char>>>,
    index: int,
    source: Seq<u8>,
    destination: Seq<u8>,
)
    requires
        0 <= index < entries.len(),
        forall|i: int|
            0 <= i < index ==> {
                &&& (#[trigger] entries[i]) is Ok
                &&& relative_path_error(entries[i]->Ok_0.path, false) is None
                &&& entries[i]->Ok_0.directory || entries[i]->Ok_0.file
                &&& entries[i]->Ok_0.damage is None
                &&& path_components(entries[i]->Ok_0.path) == path_components(source)
                    ==> entries[i]->Ok_0.file && path_components(destination).len() > 0 && !(
                path_components(destination).last() is RootDir)
            },
        forall|i: int, j: int|
            0 <= i < j < index && path_components((#[trigger] entries[i])->Ok_0.path)
                == path_components(source) ==> path_components((#[trigger] entries[j])->Ok_0.path)
                != path_components(source),
    ensures
        ({
            let work = unpack_file_work(entries, source, destination);
            let taken = exists|i: int|
                0 <= i < index && path_components((#[trigger] entries[i])->Ok_0.path)
                    == path_components(source);
            match entries[index] {
                Err(reason) => work.failure == Some(ErrorView::UnreadableArchive { reason })
                    && work.steps.len() == if taken {
                    1int
                } else {
                    0
                },
                Ok(member) => {
                    let wanted = path_components(member.path) == path_components(source);
                    match relative_path_error(member.path, false) {
                        Some(cause) => work.failure == Some(
                            ErrorView::UnsafeArchivePath { path: member.path, cause },
                        ),
                        None => if !member.directory && !member.file {
                            work.failure == Some(ErrorView::UnsupportedEntry { path: member.path })
                        } else if wanted && taken {
                            work.failure == Some(ErrorView::DuplicateEntry { path: source })
                        } else if wanted && !member.file {
                            work.failure == Some(ErrorView::EntryNotFile)
                        } else if wanted && (path_components(destination).len() == 0
                            || path_components(destination).last() is RootDir) {
                            work.failure == Some(ErrorView::TargetWithoutParent)
                        } else {
                            member.damage is Some ==> {
                                &&& work.failure == Some(
                                    ErrorView::UnreadableArchive { reason: member.damage->0 },
                                )
                                &&& wanted ==> work.steps == seq![
                                    StepView::BeginNew {
                                        to: destination,
                                        contents: member.contents,
                                    },
                                ]
                            }
                        },
                    }
                },
            }
        }),
{
    let fewer = entries.take(index);
    let entry = entries[index];
    lemma_file_prefix(entries, index, source, destination);
    let taken = exists|i: int|
        0 <= i < index && path_components((#[trigger] entries[i])->Ok_0.path) == path_components(
            source,
        );
    assert(wanted_among(fewer, source) == taken) by {
        if taken {
            let i = choose|i: int|
                0 <= i < index && path_components((#[trigger] entries[i])->Ok_0.path)
                    == path_components(source);
            assert(is_wanted(fewer[i], source));
        }
        if wanted_among(fewer, source) {
            let i = choose|i: int| 0 <= i < fewer.len() && is_wanted(#[trigger] fewer[i], source);
            assert(fewer[i] == entries[i]);
        }
    }
    let nothing = Seq::<StepView>::empty();
    let early = file_entries_work(entries, index, source, destination).steps;
    assert(nothing + nothing =~= nothing);
    assert(early + nothing =~= early);
    let own = file_entry_work(entries, index, source, destination);
    assert(file_entries_work(entries, index + 1, source, destination) == work_in_turn(
        file_entries_work(entries, index, source, destination),
        own,
    ));
    if own.failure is Some {
        lemma_file_failure_is_final(
            entries,
            source,
            destination,
            index + 1,
            entries.len() as int,
        );
        let all = file_entries_work(entries, entries.len() as int, source, destination);
        assert(all.failure is Some);
        assert(unpack_file_work(entries, source, destination) == all);
    }
    if taken {
        let k = choose|k: int|
            0 <= k < index && path_components((#[trigger] entries[k])->Ok_0.path)
                == path_components(source);
        assert(early.len() == 1);
    } else {
        assert(early == nothing);
        if entry is Ok && is_wanted(entry, source) && entry_error(entry) is None
            && entry->Ok_0.file && has_parent(destination) && entry->Ok_0.damage is Some {
            let step = write_step(entry->Ok_0, destination);
            assert(nothing + (seq![step] + nothing) =~= seq![step]);
        }
    }
}

/// The mathematical form of work has what each step does, in their places.
pub proof fn work_keeps_its_steps(work: Work, index: int)
    ensures
        work@.steps.len() == work.steps@.len(),
        work@.failure is Some <==> work.failure is Some,
        work.failure is Some ==> work@.failure->0 == work.failure->0@,
        0 <= index < work.steps@.len() ==> match work.steps@[index] {
            Step::CreateTree { path } => work@.steps[index] == (StepView::CreateTree {
                path: path@,
            }),
            Step::SetMode { path, mode } => work@.steps[index] == (StepView::SetMode {
                path: path@,
                mode,
            }),
            Step::CopyNew { from, to, mode } => work@.steps[index] == (StepView::CopyNew {
                from: from@,
                to: to@,
                mode,
            }),
            Step::WriteNew { to, contents, mode } => work@.steps[index] == (StepView::WriteNew {
                to: to@,
                contents: contents@,
                mode,
            }),
            Step::BeginNew { to, contents } => work@.steps[index] == (StepView::BeginNew {
                to: to@,
                contents: contents@,
            }),
            Step::EnsureDirectory { path, mode } => work@.steps[index] == (
            StepView::EnsureDirectory { path: path@, mode }),
            Step::Normalize { path, mode } => work@.steps[index] == (StepView::Normalize {
                path: path@,
                mode,
            }),
        },
{
}

} // verus!
