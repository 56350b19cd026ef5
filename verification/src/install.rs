//! Objects: when a download or an installation has to be made, and in which order.

use serde_json::Value;
use vstd::prelude::*;

use crate::artifact::{object_data, verify_download, StoredDownload};
use crate::error::{Error, ErrorView};
use crate::plan::{Item, ItemView};
use crate::progress::{completed, failed};
use crate::store::Store;

verus! {

use crate::artifact::{
    data_path,
    received_error,
    stored_download_error,
    stored_download_is_what_was_asked_for,
};
use crate::digest::{hex_text, sha256};
use crate::error::error_summary;
use crate::json::{is_flat, json, Json};
use crate::path::path_join;
use crate::progress::{completed_json, failed_json};
use crate::store::download_path;
use vstd::utf8::encode_utf8;

/// What was found at the place of an installation.
#[derive(Debug)]
pub struct StoredObject {
    /// The key in it, or why that could not be read.
    pub key: Result<String, String>,
    /// Whether it has a directory of installed files.
    pub has_root: bool,
}

/// What is wrong with an object that is there, if anything is.
pub open spec fn object_error(
    object: Seq<u8>,
    key: Seq<char>,
    directory_root: bool,
    stored: StoredObject,
) -> Option<ErrorView> {
    match stored.key {
        Err(reason) => Some(ErrorView::ReadObjectKey { path: object, reason: reason@ }),
        Ok(stored_key) => if stored_key@ != key {
            Some(ErrorView::ObjectKeyCollision)
        } else if directory_root && !stored.has_root {
            Some(ErrorView::MissingRoot)
        } else {
            None
        },
    }
}

/// Whether an object is there. Where it is, it has to hold the key, and the
/// installed files where they are asked for.
pub fn valid_object(
    object: &[u8],
    key: &str,
    directory_root: bool,
    stored: Option<StoredObject>,
) -> (result: Result<bool, Error>)
    ensures
        match stored {
            None => result == Ok::<bool, Error>(false),
            Some(stored) => match result {
                Ok(valid) => valid && object_error(object@, key@, directory_root, stored) is None,
                Err(error) => object_error(object@, key@, directory_root, stored) == Some(error@),
            },
        },
{
    match stored {
        None => Ok(false),
        Some(stored) => {
            match stored.key {
                Err(reason) => Err(
                    Error::ReadObjectKey { path: vstd::slice::slice_to_vec(object), reason },
                ),
                Ok(stored_key) => {
                    if stored_key != key.to_owned() {
                        Err(Error::ObjectKeyCollision)
                    } else if directory_root && !stored.has_root {
                        Err(Error::MissingRoot)
                    } else {
                        Ok(true)
                    }
                },
            }
        },
    }
}

/// What has to be done for a download.
#[derive(Debug)]
pub enum Fetch {
    /// Nothing: its data is there.
    Cached { path: Vec<u8> },
    /// It has to be fetched, and its data put in place.
    Download { path: Vec<u8> },
    /// Nothing can be done: what is there is not what the item asks for.
    Refused { error: Error },
}

/// The mathematical form of [`Fetch`].
pub enum FetchView {
    Cached { path: Seq<u8> },
    Download { path: Seq<u8> },
    Refused { error: ErrorView },
}

impl View for Fetch {
    type V = FetchView;

    open spec fn view(&self) -> FetchView {
        match self {
            Fetch::Cached { path } => FetchView::Cached { path: path@ },
            Fetch::Download { path } => FetchView::Download { path: path@ },
            Fetch::Refused { error } => FetchView::Refused { error: error@ },
        }
    }
}

/// Where the data of the download of a key is in a store.
pub open spec fn fetched_path(store: Seq<u8>, key: Seq<char>) -> Seq<u8> {
    data_path(download_path(store, key))
}

/// What has to be done for the download of an item, given what was found at its
/// place.
pub open spec fn needed_fetch(
    store: Seq<u8>,
    item: ItemView,
    found: Option<StoredDownload>,
) -> FetchView {
    let path = fetched_path(store, item.key);
    match found {
        None => FetchView::Download { path },
        Some(stored) => match stored_download_error(download_path(store, item.key), item, stored) {
            None => FetchView::Cached { path },
            Some(error) => FetchView::Refused { error },
        },
    }
}

impl Store {
    /// What has to be done for the download of an item, given what was found at
    /// its place.
    pub fn ensure_download(&self, item: &Item, found: Option<StoredDownload>) -> (fetch: Fetch)
        requires
            found is Some && item.digest is Some ==> found->0.contents is Some,
        ensures
            fetch@ == needed_fetch(self@, item@, found),
    {
        let object = self.download_object(item.key.as_str());
        match found {
            None => Fetch::Download { path: object_data(object.as_slice()) },
            Some(stored) => {
                match verify_download(object.as_slice(), item, stored) {
                    Ok(path) => Fetch::Cached { path },
                    Err(error) => Fetch::Refused { error },
                }
            },
        }
    }
}

/// A download that was fetched, or found, is found by every later item with its key
/// whose size and digest, where it asks for them, are those of the bytes: at the
/// same place, and wherever that item would fetch it from. The later one ends with
/// the event of an object that was there.
pub proof fn download_is_shared_by_key(
    store: Seq<u8>,
    first: ItemView,
    found: Option<StoredDownload>,
    bytes: Seq<u8>,
    stored: StoredDownload,
    later: ItemView,
)
    requires
        !(needed_fetch(store, first, found) is Refused),
        later.key == first.key,
        received_error(later, bytes) is None,
        // What is found later is the object of the first item, with these bytes.
        stored.key is Ok && stored.key->Ok_0@ == first.key,
        stored.data is Ok && stored.data->Ok_0.regular && stored.data->Ok_0.size == bytes.len(),
        later.digest is Some ==> stored.contents is Some && stored.contents->0 is Ok
            && stored.contents->0->Ok_0@ == bytes,
    ensures
        needed_fetch(store, first, found) == (FetchView::Download {
            path: fetched_path(store, first.key),
        }) || needed_fetch(store, first, found) == (FetchView::Cached {
            path: fetched_path(store, first.key),
        }),
        needed_fetch(store, later, Some(stored)) == (FetchView::Cached {
            path: fetched_path(store, first.key),
        }),
        closing_json(Ok(true)) == completed_json(true),
{
}

/// The last event of a download or an installation.
pub open spec fn closing_json(result: Result<bool, Error>) -> Json {
    match result {
        Ok(cached) => completed_json(cached),
        Err(error) => failed_json(error_summary(error@)),
    }
}

/// The last event of a download or an installation: whether the object was there
/// already, or what went wrong.
pub fn closing_event(result: &Result<bool, Error>) -> (event: Value)
    ensures
        is_flat(json(event)),
        json(event) == closing_json(*result),
{
    match result {
        Ok(cached) => completed(*cached),
        Err(error) => failed(error.summary().as_str()),
    }
}

/// How an installation ends.
#[derive(Debug, Clone, Copy, PartialEq, Eq, Structural)]
pub enum Conclusion {
    /// What was built is put in place.
    Publish,
    /// What was there is kept.
    Keep,
    /// It is built, since nothing is there.
    Build,
}

/// The order in which the items of a plan are carried out while their downloads
/// come in any order.
#[derive(Debug)]
pub struct Pipeline {
    building: bool,
    arrived: Vec<bool>,
    done: usize,
}

/// The mathematical form of [`Pipeline`].
pub struct PipelineView {
    /// Whether there is anything to carry out.
    pub building: bool,
    /// Whose downloads are there.
    pub arrived: Seq<bool>,
    /// How many items are carried out.
    pub done: nat,
}

impl View for Pipeline {
    type V = PipelineView;

    closed spec fn view(&self) -> PipelineView {
        PipelineView { building: self.building, arrived: self.arrived@, done: self.done as nat }
    }
}

/// The items that are carried out are the first ones, and their downloads are
/// there.
pub open spec fn in_order(pipeline: PipelineView) -> bool {
    &&& pipeline.done <= pipeline.arrived.len()
    &&& forall|i: int| 0 <= i < pipeline.done ==> #[trigger] pipeline.arrived[i]
    &&& !pipeline.building ==> pipeline.done == 0
}

/// The item that can be carried out now, if there is one: the first one that is
/// not, once its download is there.
pub open spec fn next_item(pipeline: PipelineView) -> Option<int> {
    if pipeline.building && pipeline.done < pipeline.arrived.len()
        && pipeline.arrived[pipeline.done as int] {
        Some(pipeline.done as int)
    } else {
        None
    }
}

/// Whether all downloads are there and all items carried out, where there is
/// anything to carry out.
pub open spec fn is_finished(pipeline: PipelineView) -> bool {
    if pipeline.building {
        pipeline.done == pipeline.arrived.len()
    } else {
        forall|i: int| 0 <= i < pipeline.arrived.len() ==> #[trigger] pipeline.arrived[i]
    }
}

impl Pipeline {
    /// No download is there and no item carried out. An installation that exists
    /// already is not built again: only its downloads are waited for.
    pub fn new(count: usize, exists: bool) -> (pipeline: Pipeline)
        ensures
            in_order(pipeline@),
            pipeline@.building == !exists,
            pipeline@.done == 0,
            pipeline@.arrived.len() == count,
            forall|i: int| 0 <= i < count ==> !#[trigger] pipeline@.arrived[i],
    {
        let mut arrived: Vec<bool> = Vec::new();
        let mut i: usize = 0;
        while i < count
            invariant
                i <= count,
                arrived.len() == i,
                forall|k: int| 0 <= k < i ==> !#[trigger] arrived@[k],
            decreases count - i,
        {
            arrived.push(false);
            i += 1;
        }
        Pipeline { building: !exists, arrived, done: 0 }
    }

    /// Takes in that the download of an item is there.
    pub fn arrive(&mut self, index: usize)
        requires
            in_order(old(self)@),
            index < old(self)@.arrived.len(),
        ensures
            in_order(final(self)@),
            final(self)@.building == old(self)@.building,
            final(self)@.done == old(self)@.done,
            final(self)@.arrived == old(self)@.arrived.update(index as int, true),
    {
        self.arrived.set(index, true);
    }

    /// The item that can be carried out now, if there is one.
    pub fn next(&self) -> (index: Option<usize>)
        ensures
            match index {
                Some(index) => next_item(self@) == Some(index as int),
                None => next_item(self@) is None,
            },
    {
        if self.building && self.done < self.arrived.len() && self.arrived[self.done] {
            Some(self.done)
        } else {
            None
        }
    }

    /// Takes in that the next item is carried out.
    pub fn advance(&mut self)
        requires
            in_order(old(self)@),
            next_item(old(self)@) is Some,
        ensures
            in_order(final(self)@),
            final(self)@.building == old(self)@.building,
            final(self)@.arrived == old(self)@.arrived,
            final(self)@.done == old(self)@.done + 1,
    {
        let count = self.arrived.len();
        assert(self.done < count);
        self.done = self.done + 1;
    }

    /// What is left to do once there is nothing left to wait for: to put what was
    /// built in place, or to accept what was there. What was there and is there no
    /// more has to be built.
    pub fn conclude(&self, object: &[u8], key: &str, stored: Option<StoredObject>) -> (result:
        Result<Conclusion, Error>)
        requires
            is_finished(self@),
        ensures
            if self@.building {
                result == Ok::<Conclusion, Error>(Conclusion::Publish)
            } else {
                match stored {
                    None => result == Ok::<Conclusion, Error>(Conclusion::Build),
                    Some(stored) => match result {
                        Ok(conclusion) => conclusion is Keep && object_error(
                            object@,
                            key@,
                            true,
                            stored,
                        ) is None,
                        Err(error) => object_error(object@, key@, true, stored) == Some(error@),
                    },
                }
            },
    {
        if self.building {
            return Ok(Conclusion::Publish);
        }
        match valid_object(object, key, true, stored) {
            Ok(true) => Ok(Conclusion::Keep),
            Ok(false) => Ok(Conclusion::Build),
            Err(error) => Err(error),
        }
    }

    /// Takes in that what was there has to be built: all downloads stay, and no item
    /// is carried out.
    pub fn rebuild(&mut self)
        requires
            is_finished(old(self)@),
            !old(self)@.building,
        ensures
            in_order(final(self)@),
            final(self)@.building,
            final(self)@.done == 0,
            final(self)@.arrived == old(self)@.arrived,
    {
        self.building = true;
        self.done = 0;
    }

    /// Whether there is nothing left to wait for.
    pub fn finished(&self) -> (finished: bool)
        ensures
            finished == is_finished(self@),
    {
        if self.building {
            return self.done == self.arrived.len();
        }
        let mut i: usize = 0;
        while i < self.arrived.len()
            invariant
                i <= self.arrived.len(),
                !self.building,
                forall|k: int| 0 <= k < i ==> #[trigger] self.arrived@[k],
            decreases self.arrived.len() - i,
        {
            if !self.arrived[i] {
                assert(!self@.arrived[i as int]);
                return false;
            }
            i += 1;
        }
        true
    }
}

/// Once all downloads are there, an item can be carried out until all of them
/// are: no order of arrival leaves one behind.
pub proof fn no_item_is_left_behind(pipeline: PipelineView)
    requires
        in_order(pipeline),
        forall|i: int| 0 <= i < pipeline.arrived.len() ==> #[trigger] pipeline.arrived[i],
    ensures
        is_finished(pipeline) <==> next_item(pipeline) is None,
{
}

/// An installation that turns out to be gone is built from its first item on, and
/// waits for no download.
pub proof fn rebuilding_waits_for_nothing(pipeline: PipelineView)
    requires
        is_finished(pipeline),
        !pipeline.building,
    ensures
        ({
            let rebuilt = PipelineView { building: true, done: 0, ..pipeline };
            if pipeline.arrived.len() == 0 {
                is_finished(rebuilt)
            } else {
                next_item(rebuilt) == Some(0int)
            }
        }),
{
}

/// An item that can be carried out does not wait for the downloads of those behind
/// it.
pub proof fn later_downloads_hold_nothing_up(pipeline: PipelineView, later: Seq<bool>)
    requires
        next_item(pipeline) is Some,
        later.len() == pipeline.arrived.len(),
        forall|i: int| 0 <= i <= pipeline.done ==> #[trigger] later[i] == pipeline.arrived[i],
    ensures
        next_item(PipelineView { arrived: later, ..pipeline }) == next_item(pipeline),
{
}

/// An object that is there is accepted exactly where its key can be read and is the one
/// that is asked for, and it has the installed files, where they are asked for. Of what
/// is wrong, the first of these is told.
pub proof fn accepted_objects(
    object: Seq<u8>,
    key: Seq<char>,
    directory_root: bool,
    stored: StoredObject,
)
    ensures
        ({
            let error = object_error(object, key, directory_root, stored);
            &&& error is None <==> stored.key is Ok && stored.key->Ok_0@ == key && (directory_root
                ==> stored.has_root)
            &&& stored.key is Err ==> error == Some(
                ErrorView::ReadObjectKey { path: object, reason: stored.key->Err_0@ },
            )
            &&& stored.key is Ok && stored.key->Ok_0@ != key ==> error == Some(
                ErrorView::ObjectKeyCollision,
            )
            &&& stored.key is Ok && stored.key->Ok_0@ == key && directory_root && !stored.has_root
                ==> error == Some(ErrorView::MissingRoot)
        }),
{
}

/// A download is fetched exactly where nothing is at its place. What is there is used as
/// it is, or refused: an item is never given other bytes than it asks for, and nothing is
/// fetched over what is there.
pub proof fn downloads_are_fetched_once(
    store: Seq<u8>,
    item: ItemView,
    found: Option<StoredDownload>,
)
    requires
        found is Some && item.digest is Some ==> found->0.contents is Some,
    ensures
        ({
            let fetch = needed_fetch(store, item, found);
            let object = download_path(store, item.key);
            let path = path_join(object, encode_utf8("data"@));
            &&& found is None ==> fetch == (FetchView::Download { path })
            &&& found is Some ==> {
                let stored = found->0;
                let fits = {
                    &&& stored.key is Ok
                    &&& stored.key->Ok_0@ == item.key
                    &&& stored.data is Ok
                    &&& stored.data->Ok_0.regular
                    &&& forall|size: u64|
                        item.size == Some(size) ==> stored.data->Ok_0.size == size
                    &&& item.digest is Some ==> stored.contents->0 is Ok && item.digest == Some(
                        "sha256:"@ + hex_text(sha256(stored.contents->0->Ok_0@)),
                    )
                };
                &&& fits ==> fetch == (FetchView::Cached { path })
                &&& !fits ==> fetch is Refused && stored_download_error(object, item, stored)
                    == Some(fetch->error)
            }
        }),
{
    if found is Some {
        stored_download_is_what_was_asked_for(
            download_path(store, item.key),
            item,
            found->0,
        );
    }
}

/// Items are carried out in the order of the plan, each as soon as its own download and
/// those before it are there, and none where nothing is built. There is nothing left to
/// wait for where all items are carried out, or, where nothing is built, all downloads are
/// there.
pub proof fn items_wait_for_their_own_download(pipeline: PipelineView, item: int)
    ensures
        next_item(pipeline) == Some(item) <==> {
            &&& pipeline.building
            &&& item == pipeline.done
            &&& item < pipeline.arrived.len()
            &&& pipeline.arrived[item]
        },
        pipeline.building ==> (is_finished(pipeline) <==> pipeline.done == pipeline.arrived.len()),
        !pipeline.building ==> (is_finished(pipeline) <==> pipeline.arrived == Seq::new(
            pipeline.arrived.len(),
            |i: int| true,
        )),
        in_order(pipeline) <==> {
            &&& pipeline.done <= pipeline.arrived.len()
            &&& pipeline.arrived.take(pipeline.done as int) == Seq::new(pipeline.done, |i: int| true)
            &&& pipeline.done > 0 ==> pipeline.building
        },
{
    let all = Seq::new(pipeline.arrived.len(), |i: int| true);
    if !pipeline.building && is_finished(pipeline) {
        assert(pipeline.arrived =~= all);
    }
    if pipeline.arrived == all {
        assert forall|i: int| 0 <= i < pipeline.arrived.len() implies #[trigger] pipeline.arrived[i] by {
            assert(all[i]);
        }
    }
    let done = Seq::new(pipeline.done, |i: int| true);
    if in_order(pipeline) {
        assert(pipeline.arrived.take(pipeline.done as int) =~= done);
    }
    if pipeline.done <= pipeline.arrived.len() && pipeline.arrived.take(pipeline.done as int)
        == done {
        assert forall|i: int| 0 <= i < pipeline.done implies #[trigger] pipeline.arrived[i] by {
            assert(pipeline.arrived.take(pipeline.done as int)[i] == done[i]);
        }
    }
}

/// The last event of an operation tells whether its object was there, or the outermost
/// line of what went wrong.
pub proof fn operations_end_with_their_result(result: Result<bool, Error>)
    ensures
        match result {
            Ok(cached) => closing_json(result) == Json::Object(
                map!["event"@ => Json::Text("completed"@), "cached"@ => Json::Bool(cached)],
            ),
            Err(error) => closing_json(result) == Json::Object(
                map!["event"@ => Json::Text("failed"@), "message"@ => Json::Text(
                    error_summary(error@),
                )],
            ),
        },
{
}

} // verus!
