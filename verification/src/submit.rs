//! Submission: how a plan file becomes a request, and how a request is taken back.

use vstd::prelude::*;

use crate::error::{Error, ErrorView};
use crate::intent::Intents;
use crate::plan::{LoadedPlan, Plan, PlanEnvelope, PlanView};
use crate::store::{object_root, Store};
use crate::text::decimal_text;

verus! {

use crate::intent::{
    adding_again_changes_nothing,
    binding_error,
    removing_undoes_adding,
    with_request,
    without_request,
    IntentsView,
};
use crate::path::path_join;
use crate::plan::{item_keys, loaded_plan_error, plan_error};
use crate::store::{installation_path, root_path, store_entry};
use crate::text::{decimal, texts};
use vstd::utf8::encode_utf8;

/// What the file system says of a file.
#[derive(Debug, Clone, Copy, PartialEq, Eq, Structural)]
pub struct FileFacts {
    pub regular: bool,
    pub device: u64,
    pub inode: u64,
    pub links: u64,
    pub length: u64,
    pub modified: i64,
    pub modified_nanos: i64,
}

/// Whether two looks at a file saw the same file.
pub open spec fn same_file(earlier: FileFacts, later: FileFacts) -> bool {
    later.device == earlier.device && later.inode == earlier.inode
}

/// Whether two looks at a file saw the same contents.
pub open spec fn unmodified(earlier: FileFacts, later: FileFacts) -> bool {
    later.length == earlier.length && later.modified == earlier.modified && later.modified_nanos
        == earlier.modified_nanos
}

/// What is wrong with a plan file before anything else is known, if anything is.
pub open spec fn inspection_error(
    plan_file: Seq<u8>,
    metadata: Result<FileFacts, String>,
) -> Option<ErrorView> {
    match metadata {
        Err(reason) => Some(ErrorView::PlanMetadata { path: plan_file, reason: reason@ }),
        Ok(facts) => if facts.regular {
            None
        } else {
            Some(ErrorView::PlanNotFile)
        },
    }
}

/// What is wrong with where a plan file is, if anything is.
pub open spec fn place_error(facts: FileFacts, device: Result<u64, String>) -> Option<ErrorView> {
    match device {
        Err(reason) => Some(ErrorView::Failed { reason: reason@ }),
        Ok(device) => if facts.device == device {
            None
        } else {
            Some(ErrorView::OtherFileSystem)
        },
    }
}

/// What is wrong with the links of a plan file, if anything is: a new one has just
/// its own.
pub open spec fn admission_error(facts: FileFacts, registered: bool) -> Option<ErrorView> {
    if registered || facts.links == 1 {
        None
    } else {
        Some(ErrorView::LinkCount)
    }
}

/// What came of making the second link to a plan file.
#[derive(Debug)]
pub enum LinkOutcome {
    Linked,
    /// There is a file at its place already: its inode, or why that could not be
    /// found out.
    Taken { inode: Result<u64, String> },
    Failed { reason: String },
}

/// What is wrong with the second link to a plan file, if anything is.
pub open spec fn link_error(facts: FileFacts, outcome: LinkOutcome) -> Option<ErrorView> {
    match outcome {
        LinkOutcome::Linked => None,
        LinkOutcome::Taken { inode } => match inode {
            Err(reason) => Some(ErrorView::Failed { reason: reason@ }),
            Ok(inode) => if inode == facts.inode {
                None
            } else {
                Some(ErrorView::InodeTaken)
            },
        },
        LinkOutcome::Failed { reason } => Some(
            ErrorView::LinkFailed { inode: decimal(facts.inode as nat), reason: reason@ },
        ),
    }
}

/// What is wrong with the second link to a plan file where it had to be made, if
/// anything is.
pub open spec fn needed_link_error(
    facts: FileFacts,
    outcome: Option<LinkOutcome>,
) -> Option<ErrorView> {
    match outcome {
        Some(outcome) => link_error(facts, outcome),
        None => None,
    }
}

/// What is wrong with a plan file after it was registered, if anything is: it has
/// to be the file that was read, unchanged, and its own link has to be there still.
pub open spec fn confirmation_error(
    facts: FileFacts,
    internal: Result<FileFacts, String>,
) -> Option<ErrorView> {
    match internal {
        Err(reason) => Some(ErrorView::Failed { reason: reason@ }),
        Ok(internal) => if !same_file(facts, internal) {
            Some(ErrorView::PlanReplaced)
        } else if !unmodified(facts, internal) {
            Some(ErrorView::PlanModified)
        } else if internal.links < 2 {
            Some(ErrorView::PlanRemoved)
        } else {
            None
        },
    }
}

/// A plan file that is being submitted to a store.
pub struct SubmissionView {
    /// The root of the store.
    pub store: Seq<u8>,
    pub plan_file: Seq<u8>,
    /// What the first look at the plan file saw.
    pub facts: FileFacts,
}

/// A plan file that was inspected: a regular file.
#[derive(Debug)]
pub struct Inspected {
    store: Vec<u8>,
    plan_file: Vec<u8>,
    facts: FileFacts,
}

impl View for Inspected {
    type V = SubmissionView;

    closed spec fn view(&self) -> SubmissionView {
        SubmissionView { store: self.store@, plan_file: self.plan_file@, facts: self.facts }
    }
}

impl Inspected {
    #[verifier::type_invariant]
    spec fn is_regular(self) -> bool {
        self.facts.regular
    }
}

/// A plan file on the file system of the store.
#[derive(Debug)]
pub struct Placed {
    inspected: Inspected,
}

impl View for Placed {
    type V = SubmissionView;

    closed spec fn view(&self) -> SubmissionView {
        self.inspected@
    }
}

/// A plan file that is registered, or has just its own link.
#[derive(Debug)]
pub struct Admitted {
    placed: Placed,
    registered: bool,
}

/// The mathematical form of [`Admitted`].
pub struct AdmittedView {
    pub submission: SubmissionView,
    /// Whether the plan file was registered before.
    pub registered: bool,
}

impl View for Admitted {
    type V = AdmittedView;

    closed spec fn view(&self) -> AdmittedView {
        AdmittedView { submission: self.placed@, registered: self.registered }
    }
}

impl Admitted {
    #[verifier::type_invariant]
    spec fn is_admissible(self) -> bool {
        admission_error(self.placed@.facts, self.registered) is None
    }
}

/// A plan file that holds an acceptable plan.
#[derive(Debug)]
pub struct Planned {
    admitted: Admitted,
    plan: Plan,
}

/// The mathematical form of a plan file and the plan that it holds.
pub struct PlannedView {
    pub submission: SubmissionView,
    /// Whether the plan file was registered before.
    pub registered: bool,
    pub plan: PlanView,
}

impl View for Planned {
    type V = PlannedView;

    closed spec fn view(&self) -> PlannedView {
        PlannedView {
            submission: self.admitted@.submission,
            registered: self.admitted@.registered,
            plan: self.plan@,
        }
    }
}

impl Planned {
    #[verifier::type_invariant]
    spec fn is_acceptable(self) -> bool {
        plan_error(self.plan@) is None
    }
}

/// A plan file whose plan is installed.
#[derive(Debug)]
pub struct Installed {
    planned: Planned,
}

impl View for Installed {
    type V = PlannedView;

    closed spec fn view(&self) -> PlannedView {
        self.planned@
    }
}

/// A plan file that is registered.
#[derive(Debug)]
pub struct Linked {
    installed: Installed,
}

impl View for Linked {
    type V = PlannedView;

    closed spec fn view(&self) -> PlannedView {
        self.installed@
    }
}

/// A plan file that is registered and was not touched meanwhile.
#[derive(Debug)]
pub struct Confirmed {
    linked: Linked,
    internal: FileFacts,
}

/// The mathematical form of [`Confirmed`].
pub struct ConfirmedView {
    pub planned: PlannedView,
    /// What the last look at the plan file saw.
    pub internal: FileFacts,
}

impl View for Confirmed {
    type V = ConfirmedView;

    closed spec fn view(&self) -> ConfirmedView {
        ConfirmedView { planned: self.linked@, internal: self.internal }
    }
}

impl Confirmed {
    #[verifier::type_invariant]
    spec fn is_untouched(self) -> bool {
        confirmation_error(self.linked@.submission.facts, Ok(self.internal)) is None
    }
}

/// Where the plan with a key is installed in a store.
pub open spec fn created_path(store: Seq<u8>, plan_key: Seq<char>) -> Seq<u8> {
    root_path(installation_path(store, plan_key))
}

/// What is wrong with a plan file whose request is to be taken back, if anything is.
pub open spec fn removal_error(
    plan_file: Seq<u8>,
    metadata: Result<FileFacts, String>,
) -> Option<ErrorView> {
    match metadata {
        Err(reason) => Some(ErrorView::PlanMetadata { path: plan_file, reason: reason@ }),
        Ok(_) => None,
    }
}

/// The second link to a plan file with an inode.
pub open spec fn request_link(store: Seq<u8>, inode: u64) -> Seq<u8> {
    store_entry(store, "requests"@, decimal(inode as nat))
}

/// The removal of the request of a plan file.
#[derive(Debug)]
pub struct Removal {
    store: Vec<u8>,
    inode: u64,
}

/// The mathematical form of [`Removal`].
pub struct RemovalView {
    pub store: Seq<u8>,
    pub inode: u64,
}

impl View for Removal {
    type V = RemovalView;

    closed spec fn view(&self) -> RemovalView {
        RemovalView { store: self.store@, inode: self.inode }
    }
}

impl Store {
    /// Starts the submission of a plan file, given what the file system says of
    /// it.
    pub fn create(&self, plan_file: &[u8], metadata: Result<FileFacts, String>) -> (result: Result<
        Inspected,
        Error,
    >)
        ensures
            match result {
                Ok(inspected) => inspection_error(plan_file@, metadata) is None && inspected@ == (
                SubmissionView { store: self@, plan_file: plan_file@, facts: metadata->Ok_0 }),
                Err(error) => inspection_error(plan_file@, metadata) == Some(error@),
            },
    {
        match metadata {
            Err(reason) => Err(
                Error::PlanMetadata { path: vstd::slice::slice_to_vec(plan_file), reason },
            ),
            Ok(facts) => {
                if facts.regular {
                    let store = vstd::slice::slice_to_vec(self.root());
                    Ok(Inspected { store, plan_file: vstd::slice::slice_to_vec(plan_file), facts })
                } else {
                    Err(Error::PlanNotFile)
                }
            },
        }
    }

    /// Starts the removal of a request, given what the file system says of its
    /// plan file.
    pub fn remove(&self, plan_file: &[u8], metadata: Result<FileFacts, String>) -> (result: Result<
        Removal,
        Error,
    >)
        ensures
            match result {
                Ok(removal) => removal_error(plan_file@, metadata) is None && removal@ == (
                RemovalView { store: self@, inode: metadata->Ok_0.inode }),
                Err(error) => removal_error(plan_file@, metadata) == Some(error@),
            },
    {
        match metadata {
            Ok(facts) => {
                Ok(Removal { store: vstd::slice::slice_to_vec(self.root()), inode: facts.inode })
            },
            Err(reason) => Err(
                Error::PlanMetadata { path: vstd::slice::slice_to_vec(plan_file), reason },
            ),
        }
    }
}

impl Removal {
    /// Ends the removal: the request of the inode of the plan file ends, and no
    /// other. Hands out the second link to the plan file, which goes next.
    pub fn record(self, intents: &mut Intents) -> (link: Vec<u8>)
        requires
            old(intents).well_formed(),
        ensures
            final(intents).well_formed(),
            final(intents)@.requests == old(intents)@.requests.remove(decimal(self@.inode as nat)),
            final(intents)@.relations == old(intents)@.relations,
            link@ == request_link(self@.store, self@.inode),
    {
        let inode = decimal_text(self.inode);
        intents.remove_request(inode.as_str());
        Store::open(self.store).request_path(inode.as_str())
    }
}

impl Inspected {
    /// Goes on with a plan file on the device of the store.
    pub fn place(self, device: Result<u64, String>) -> (result: Result<Placed, Error>)
        ensures
            match result {
                Ok(placed) => place_error(self@.facts, device) is None && placed@ == self@,
                Err(error) => place_error(self@.facts, device) == Some(error@),
            },
    {
        match device {
            Err(reason) => Err(Error::Failed { reason }),
            Ok(device) => {
                if self.facts.device == device {
                    Ok(Placed { inspected: self })
                } else {
                    Err(Error::OtherFileSystem)
                }
            },
        }
    }
}

impl Placed {
    /// The inode under which the plan file is registered.
    pub fn inode(&self) -> (inode: String)
        ensures
            inode@ == decimal(self@.facts.inode as nat),
    {
        decimal_text(self.inspected.facts.inode)
    }

    /// Goes on with a plan file that is registered, or has just its own link.
    pub fn accept(self, registered: bool) -> (result: Result<Admitted, Error>)
        ensures
            match result {
                Ok(admitted) => admission_error(self@.facts, registered) is None && admitted@ == (
                AdmittedView { submission: self@, registered }),
                Err(error) => admission_error(self@.facts, registered) == Some(error@),
            },
    {
        if !registered && self.inspected.facts.links != 1 {
            return Err(Error::LinkCount);
        }
        Ok(Admitted { placed: self, registered })
    }
}

impl Admitted {
    /// Goes on with a plan file that holds an acceptable plan.
    pub fn read(self, loaded: LoadedPlan) -> (result: Result<Planned, Error>)
        ensures
            match result {
                Ok(planned) => loaded_plan_error(self@.submission.plan_file, loaded) is None
                    && planned@ == (PlannedView {
                    submission: self@.submission,
                    registered: self@.registered,
                    plan: loaded->envelope.imos@,
                }),
                Err(error) => loaded_plan_error(self@.submission.plan_file, loaded) == Some(
                    error@,
                ),
            },
    {
        match PlanEnvelope::read(self.placed.inspected.plan_file.as_slice(), loaded) {
            Ok(envelope) => Ok(Planned { admitted: self, plan: envelope.imos }),
            Err(error) => Err(error),
        }
    }
}

impl Planned {
    /// The plan that is to be installed.
    pub fn plan(&self) -> (plan: &Plan)
        ensures
            plan@ == self@.plan,
            plan_error(plan@) is None,
    {
        proof {
            use_type_invariant(self);
        }
        &self.plan
    }

    /// Goes on with a plan that is installed at its place, given whether it was
    /// there before or why it is not there.
    pub fn install(self, installed: Result<bool, Error>) -> (result: Result<Installed, Error>)
        ensures
            match result {
                Ok(next) => installed is Ok && next@ == self@,
                Err(error) => installed == Err::<bool, Error>(error),
            },
    {
        match installed {
            Ok(_) => Ok(Installed { planned: self }),
            Err(error) => Err(error),
        }
    }
}

impl Installed {
    /// Whether the second link to the plan file has to be made.
    pub fn needs_link(&self) -> (needed: bool)
        ensures
            needed == !self@.registered,
    {
        !self.planned.admitted.registered
    }

    /// Goes on with a plan file that has its second link, given what came of
    /// making it where it had to be made.
    pub fn link(self, outcome: Option<LinkOutcome>) -> (result: Result<Linked, Error>)
        requires
            outcome is Some == !self@.registered,
        ensures
            match result {
                Ok(linked) => needed_link_error(self@.submission.facts, outcome) is None && linked@
                    == self@,
                Err(error) => needed_link_error(self@.submission.facts, outcome) == Some(error@),
            },
    {
        let inode: u64 = self.planned.admitted.placed.inspected.facts.inode;
        match outcome {
            None => {},
            Some(LinkOutcome::Linked) => {},
            Some(LinkOutcome::Taken { inode: found }) => {
                match found {
                    Err(reason) => {
                        return Err(Error::Failed { reason });
                    },
                    Ok(found) => {
                        if found != inode {
                            return Err(Error::InodeTaken);
                        }
                    },
                }
            },
            Some(LinkOutcome::Failed { reason }) => {
                return Err(Error::LinkFailed { inode: decimal_text(inode), reason });
            },
        }
        Ok(Linked { installed: self })
    }
}

impl Linked {
    /// Goes on with a plan file that was not touched meanwhile, given what the
    /// file system says of its second link.
    pub fn confirm(self, internal: Result<FileFacts, String>) -> (result: Result<Confirmed, Error>)
        ensures
            match result {
                Ok(confirmed) => confirmation_error(self@.submission.facts, internal) is None
                    && confirmed@ == (ConfirmedView { planned: self@, internal: internal->Ok_0 }),
                Err(error) => confirmation_error(self@.submission.facts, internal) == Some(error@),
            },
    {
        let facts = self.installed.planned.admitted.placed.inspected.facts;
        match internal {
            Err(reason) => Err(Error::Failed { reason }),
            Ok(internal) => {
                if internal.device != facts.device || internal.inode != facts.inode {
                    Err(Error::PlanReplaced)
                } else if internal.length != facts.length || internal.modified != facts.modified
                    || internal.modified_nanos != facts.modified_nanos {
                    Err(Error::PlanModified)
                } else if internal.links < 2 {
                    Err(Error::PlanRemoved)
                } else {
                    Ok(Confirmed { linked: self, internal })
                }
            },
        }
    }
}

impl Confirmed {
    /// Ends the submission: adds the request, unless its inode stands for another
    /// plan, and hands out where the plan is installed. That depends on the store
    /// and on the key of the plan alone.
    ///
    /// Whatever was said on the way, only a regular file with an acceptable plan
    /// comes here, whose second link is that same file, unchanged, and not the
    /// last link to it.
    pub fn record(self, intents: &mut Intents) -> (result: Result<Vec<u8>, Error>)
        requires
            old(intents).well_formed(),
        ensures
            final(intents).well_formed(),
            self@.planned.submission.facts.regular,
            plan_error(self@.planned.plan) is None,
            same_file(self@.planned.submission.facts, self@.internal),
            unmodified(self@.planned.submission.facts, self@.internal),
            self@.internal.links >= 2,
            ({
                let inode = decimal(self@.planned.submission.facts.inode as nat);
                let plan = self@.planned.plan;
                match result {
                    Ok(root) => binding_error(old(intents)@, inode, plan.key) is None && root@
                        == created_path(self@.planned.submission.store, plan.key) && final(intents)@
                        == with_request(old(intents)@, inode, plan.key, item_keys(plan.items)),
                    Err(error) => binding_error(old(intents)@, inode, plan.key) == Some(error@)
                        && final(intents)@ == old(intents)@,
                }
            }),
    {
        proof {
            use_type_invariant(&self);
            use_type_invariant(&self.linked.installed.planned);
            use_type_invariant(&self.linked.installed.planned.admitted.placed.inspected);
        }
        let inspected = &self.linked.installed.planned.admitted.placed.inspected;
        let inode = decimal_text(inspected.facts.inode);
        let plan = &self.linked.installed.planned.plan;
        let keys = plan.download_keys();
        let ghost wanted = item_keys(plan@.items);
        let mut downloads: Vec<String> = Vec::new();
        let mut i: usize = 0;
        while i < keys.len()
            invariant
                i <= keys.len(),
                keys@.map_values(|key: &str| key@) == wanted,
                texts(downloads@) == wanted.take(i as int),
            decreases keys.len() - i,
        {
            let ghost before = texts(downloads@);
            downloads.push(keys[i].to_owned());
            proof {
                assert(wanted[i as int] == keys@[i as int]@);
                assert(texts(downloads@) =~= before.push(wanted[i as int]));
                assert(texts(downloads@) =~= wanted.take(i + 1));
            }
            i += 1;
        }
        assert(wanted.take(i as int) == wanted);
        match intents.bind_request(inode.as_str(), plan.key.as_str(), &downloads) {
            Ok(()) => {
                let store = Store::open(vstd::slice::slice_to_vec(inspected.store.as_slice()));
                Ok(object_root(store.install_object(plan.key.as_str()).as_slice()))
            },
            Err(error) => Err(error),
        }
    }
}

/// All that is found out on the way of a submission.
#[derive(Debug)]
pub struct Findings {
    pub metadata: Result<FileFacts, String>,
    pub device: Result<u64, String>,
    pub registered: bool,
    pub loaded: LoadedPlan,
    pub installed: Result<bool, Error>,
    pub link: Option<LinkOutcome>,
    pub internal: Result<FileFacts, String>,
}

/// What ends a submission before its request is added, if anything does: the first
/// of the errors on its way.
pub open spec fn submission_error(plan_file: Seq<u8>, findings: Findings) -> Option<ErrorView> {
    let facts = findings.metadata->Ok_0;
    if inspection_error(plan_file, findings.metadata) is Some {
        inspection_error(plan_file, findings.metadata)
    } else if place_error(facts, findings.device) is Some {
        place_error(facts, findings.device)
    } else if admission_error(facts, findings.registered) is Some {
        admission_error(facts, findings.registered)
    } else if loaded_plan_error(plan_file, findings.loaded) is Some {
        loaded_plan_error(plan_file, findings.loaded)
    } else if findings.installed is Err {
        Some(findings.installed->Err_0@)
    } else if needed_link_error(facts, findings.link) is Some {
        needed_link_error(facts, findings.link)
    } else {
        confirmation_error(facts, findings.internal)
    }
}

/// What a submission comes to: where the plan is installed, and the intents with
/// its request, or an error.
pub open spec fn submission_result(
    store: Seq<u8>,
    plan_file: Seq<u8>,
    findings: Findings,
    intents: IntentsView,
) -> Result<(Seq<u8>, IntentsView), ErrorView> {
    let plan = findings.loaded->envelope.imos@;
    let inode = decimal(findings.metadata->Ok_0.inode as nat);
    if submission_error(plan_file, findings) is Some {
        Err(submission_error(plan_file, findings)->0)
    } else if binding_error(intents, inode, plan.key) is Some {
        Err(binding_error(intents, inode, plan.key)->0)
    } else {
        Ok(
            (
                created_path(store, plan.key),
                with_request(intents, inode, plan.key, item_keys(plan.items)),
            ),
        )
    }
}

impl Store {
    /// A whole submission, given all that is found out on its way.
    pub fn submit(&self, plan_file: &[u8], findings: Findings, intents: &mut Intents) -> (result:
        Result<Vec<u8>, Error>)
        requires
            old(intents).well_formed(),
            findings.link is Some == !findings.registered,
        ensures
            final(intents).well_formed(),
            match result {
                Ok(root) => submission_result(self@, plan_file@, findings, old(intents)@) == Ok::<
                    (Seq<u8>, IntentsView),
                    ErrorView,
                >((root@, final(intents)@)),
                Err(error) => submission_result(self@, plan_file@, findings, old(intents)@)
                    == Err::<(Seq<u8>, IntentsView), ErrorView>(error@) && final(intents)@ == old(
                    intents)@,
            },
    {
        let inspected = match self.create(plan_file, findings.metadata) {
            Ok(inspected) => inspected,
            Err(error) => {
                return Err(error);
            },
        };
        let placed = match inspected.place(findings.device) {
            Ok(placed) => placed,
            Err(error) => {
                return Err(error);
            },
        };
        let admitted = match placed.accept(findings.registered) {
            Ok(admitted) => admitted,
            Err(error) => {
                return Err(error);
            },
        };
        let planned = match admitted.read(findings.loaded) {
            Ok(planned) => planned,
            Err(error) => {
                return Err(error);
            },
        };
        let installed = match planned.install(findings.installed) {
            Ok(installed) => installed,
            Err(error) => {
                return Err(error);
            },
        };
        let linked = match installed.link(findings.link) {
            Ok(linked) => linked,
            Err(error) => {
                return Err(error);
            },
        };
        match linked.confirm(findings.internal) {
            Ok(confirmed) => confirmed.record(intents),
            Err(error) => Err(error),
        }
    }
}

impl Store {
    /// A whole removal, given what the file system says of the plan file: the
    /// second link that goes, and the intents without the request of that file.
    pub fn withdraw(
        &self,
        plan_file: &[u8],
        metadata: Result<FileFacts, String>,
        intents: &mut Intents,
    ) -> (result: Result<Vec<u8>, Error>)
        requires
            old(intents).well_formed(),
        ensures
            final(intents).well_formed(),
            match result {
                Ok(link) => {
                    let inode = metadata->Ok_0.inode;
                    &&& removal_error(plan_file@, metadata) is None
                    &&& link@ == request_link(self@, inode)
                    &&& final(intents)@ == without_request(old(intents)@, decimal(inode as nat))
                },
                Err(error) => {
                    &&& removal_error(plan_file@, metadata) == Some(error@)
                    &&& final(intents)@ == old(intents)@
                },
            },
    {
        match self.remove(plan_file, metadata) {
            Ok(removal) => Ok(removal.record(intents)),
            Err(error) => Err(error),
        }
    }
}

/// What is taken back is the request that was submitted for the same file: of the
/// requests that there were before, all are left, and each wants what it did.
pub proof fn withdrawing_ends_what_was_submitted(
    store: Seq<u8>,
    plan_file: Seq<u8>,
    findings: Findings,
    intents: IntentsView,
)
    requires
        submission_result(store, plan_file, findings, intents) is Ok,
        !intents.requests.contains_key(decimal(findings.metadata->Ok_0.inode as nat)),
    ensures
        ({
            let inode = decimal(findings.metadata->Ok_0.inode as nat);
            let submitted = submission_result(store, plan_file, findings, intents)->Ok_0.1;
            let back = without_request(submitted, inode);
            &&& submitted.requests.contains_key(inode)
            &&& back.requests == intents.requests
            &&& back.relations == submitted.relations
        }),
{
    let plan = findings.loaded->envelope.imos@;
    removing_undoes_adding(
        intents,
        decimal(findings.metadata->Ok_0.inode as nat),
        plan.key,
        item_keys(plan.items),
    );
}

/// A plan file that was submitted can be submitted again as long as it is not
/// touched and its plan can be installed: that gives the same path and changes no
/// intent, though the file has two links by then.
pub proof fn submitting_again_changes_nothing(
    store: Seq<u8>,
    plan_file: Seq<u8>,
    first: Findings,
    again: Findings,
    intents: IntentsView,
)
    requires
        submission_result(store, plan_file, first, intents) is Ok,
        // The second submission sees the same file, on the same device, with the
        // same contents.
        again.metadata is Ok && again.metadata->Ok_0.regular,
        same_file(first.metadata->Ok_0, again.metadata->Ok_0),
        unmodified(first.metadata->Ok_0, again.metadata->Ok_0),
        again.device == first.device,
        again.loaded == first.loaded,
        // The second link is there, and nobody touches the file meanwhile.
        again.registered && again.link is None,
        again.internal is Ok && again.internal->Ok_0.links >= 2,
        same_file(again.metadata->Ok_0, again.internal->Ok_0),
        unmodified(again.metadata->Ok_0, again.internal->Ok_0),
        again.installed is Ok,
    ensures
        ({
            let once = submission_result(store, plan_file, first, intents)->Ok_0;
            submission_result(store, plan_file, again, once.1) == Ok::<
                (Seq<u8>, IntentsView),
                ErrorView,
            >(once)
        }),
{
    let plan = first.loaded->envelope.imos@;
    adding_again_changes_nothing(
        intents,
        decimal(first.metadata->Ok_0.inode as nat),
        plan.key,
        item_keys(plan.items),
    );
}

/// A submission succeeds exactly where the plan file is a regular file on the device of
/// the store, is registered or has just one link, holds an acceptable plan that can be
/// installed, has the file itself as its second link, is unchanged in the end with both
/// links there, and its inode is bound to no other plan. It then gives the place where
/// the plan is installed, and binds the inode to the plan and the plan to its downloads.
pub proof fn accepted_submissions(
    store: Seq<u8>,
    plan_file: Seq<u8>,
    findings: Findings,
    intents: IntentsView,
)
    ensures
        ({
            let result = submission_result(store, plan_file, findings, intents);
            let facts = findings.metadata->Ok_0;
            let last = findings.internal->Ok_0;
            let plan = findings.loaded->envelope.imos@;
            let inode = decimal(facts.inode as nat);
            &&& result is Ok <==> {
                &&& findings.metadata is Ok
                &&& facts.regular
                &&& findings.device is Ok
                &&& findings.device->Ok_0 == facts.device
                &&& findings.registered || facts.links == 1
                &&& findings.loaded is Parsed
                &&& plan_error(plan) is None
                &&& findings.installed is Ok
                &&& match findings.link {
                    None => true,
                    Some(LinkOutcome::Linked) => true,
                    Some(LinkOutcome::Taken { inode: found }) => found is Ok && found->Ok_0
                        == facts.inode,
                    Some(LinkOutcome::Failed { .. }) => false,
                }
                &&& findings.internal is Ok
                &&& last.device == facts.device
                &&& last.inode == facts.inode
                &&& last.length == facts.length
                &&& last.modified == facts.modified
                &&& last.modified_nanos == facts.modified_nanos
                &&& last.links >= 2
                &&& intents.requests.contains_key(inode) ==> intents.requests[inode] == plan.key
            }
            &&& result is Ok ==> {
                let (path, more) = result->Ok_0;
                &&& path == path_join(installation_path(store, plan.key), encode_utf8("root"@))
                &&& more.requests == intents.requests.insert(inode, plan.key)
                &&& forall|key: Seq<char>, download: Seq<char>| #[trigger]
                    more.relations.contains((key, download)) <==> intents.relations.contains(
                        (key, download),
                    ) || key == plan.key && exists|i: int|
                        0 <= i < plan.items.len() && (#[trigger] plan.items[i]).key == download
            }
        }),
{
    let result = submission_result(store, plan_file, findings, intents);
    let plan = findings.loaded->envelope.imos@;
    if result is Ok {
        let more = result->Ok_0.1;
        let keys = item_keys(plan.items);
        assert forall|key: Seq<char>, download: Seq<char>| #[trigger]
            more.relations.contains((key, download)) <==> intents.relations.contains(
                (key, download),
            ) || key == plan.key && exists|i: int|
                0 <= i < plan.items.len() && (#[trigger] plan.items[i]).key == download by {
            if keys.contains(download) {
                let i = choose|i: int| 0 <= i < keys.len() && keys[i] == download;
                assert(plan.items[i].key == download);
            }
            if exists|i: int| 0 <= i < plan.items.len() && (#[trigger] plan.items[i]).key == download {
                let i = choose|i: int|
                    0 <= i < plan.items.len() && (#[trigger] plan.items[i]).key == download;
                assert(keys[i] == download);
            }
        }
    }
}

/// A submission that fails tells the first obstacle on its way, and changes no intent.
pub proof fn first_obstacle_of_a_submission_is_told(
    store: Seq<u8>,
    plan_file: Seq<u8>,
    findings: Findings,
    intents: IntentsView,
)
    ensures
        ({
            let result = submission_result(store, plan_file, findings, intents);
            let facts = findings.metadata->Ok_0;
            let last = findings.internal->Ok_0;
            let plan = findings.loaded->envelope.imos@;
            let inode = decimal(facts.inode as nat);
            let told = |error: ErrorView| result == Err::<(Seq<u8>, IntentsView), ErrorView>(error);
            if findings.metadata is Err {
                told(
                    ErrorView::PlanMetadata {
                        path: plan_file,
                        reason: findings.metadata->Err_0@,
                    },
                )
            } else if !facts.regular {
                told(ErrorView::PlanNotFile)
            } else if findings.device is Err {
                told(ErrorView::Failed { reason: findings.device->Err_0@ })
            } else if findings.device->Ok_0 != facts.device {
                told(ErrorView::OtherFileSystem)
            } else if !findings.registered && facts.links != 1 {
                told(ErrorView::LinkCount)
            } else if findings.loaded is Unreadable {
                told(
                    ErrorView::ReadPlan {
                        path: plan_file,
                        reason: findings.loaded->Unreadable_reason@,
                    },
                )
            } else if findings.loaded is Malformed {
                told(
                    ErrorView::ParsePlan {
                        path: plan_file,
                        reason: findings.loaded->Malformed_reason@,
                    },
                )
            } else if plan_error(plan) is Some {
                told(plan_error(plan)->0)
            } else if findings.installed is Err {
                told(findings.installed->Err_0@)
            } else {
                match findings.link {
                    Some(LinkOutcome::Failed { reason }) => told(
                        ErrorView::LinkFailed { inode, reason: reason@ },
                    ),
                    Some(LinkOutcome::Taken { inode: Err(reason) }) => told(
                        ErrorView::Failed { reason: reason@ },
                    ),
                    Some(LinkOutcome::Taken { inode: Ok(found) }) if found != facts.inode => told(
                        ErrorView::InodeTaken,
                    ),
                    _ => if findings.internal is Err {
                        told(ErrorView::Failed { reason: findings.internal->Err_0@ })
                    } else if last.device != facts.device || last.inode != facts.inode {
                        told(ErrorView::PlanReplaced)
                    } else if last.length != facts.length || last.modified != facts.modified
                        || last.modified_nanos != facts.modified_nanos {
                        told(ErrorView::PlanModified)
                    } else if last.links < 2 {
                        told(ErrorView::PlanRemoved)
                    } else if intents.requests.contains_key(inode) && intents.requests[inode]
                        != plan.key {
                        told(ErrorView::PlanKeyConflict)
                    } else {
                        result is Ok
                    },
                }
            }
        }),
{
}

/// A request is taken back by the inode of its plan file, whatever else is true of that
/// file, and by nothing else; its second link is found by that inode.
pub proof fn requests_are_found_by_inode(
    store: Seq<u8>,
    plan_file: Seq<u8>,
    metadata: Result<FileFacts, String>,
    inode: u64,
)
    ensures
        removal_error(plan_file, metadata) is None <==> metadata is Ok,
        metadata is Err ==> removal_error(plan_file, metadata) == Some(
            ErrorView::PlanMetadata { path: plan_file, reason: metadata->Err_0@ },
        ),
        request_link(store, inode) == path_join(
            path_join(store, encode_utf8("requests"@)),
            encode_utf8(decimal(inode as nat)),
        ),
{
}

} // verus!
