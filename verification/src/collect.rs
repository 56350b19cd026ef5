//! Collection: which requests have ended, and which objects nobody wants any more.

use vstd::prelude::*;

use crate::digest::key_name;
use crate::intent::{Intents, IntentsView};
use crate::store::Store;
use crate::text::{contains_text, decimal_text, lossy};

verus! {

use crate::digest::{hex_text, key_digest, sha256};
use crate::intent::{
    live_downloads,
    live_is_what_requests_want,
    live_plans,
    pruned,
    pruning_keeps_what_is_live,
};
use crate::text::{decimal, lemma_push_to_set, lossy_text, raws, texts};
use vstd::utf8::encode_utf8;

/// What a collection removed.
#[derive(Debug, PartialEq, Eq, Structural)]
pub struct GcReport {
    pub installs: usize,
    pub downloads: usize,
    pub requests: usize,
    pub temporary: usize,
}

impl Default for GcReport {
    /// Nothing.
    fn default() -> (report: GcReport)
        ensures
            report == (GcReport { installs: 0, downloads: 0, requests: 0, temporary: 0 }),
    {
        GcReport { installs: 0, downloads: 0, requests: 0, temporary: 0 }
    }
}

/// How a report is told.
pub open spec fn report_text(report: GcReport) -> Seq<char> {
    "install="@ + decimal(report.installs as nat) + " dl="@ + decimal(report.downloads as nat)
        + " request="@ + decimal(report.requests as nat) + " tmp="@ + decimal(
        report.temporary as nat,
    )
}

impl GcReport {
    /// Tells the report.
    pub fn text(&self) -> (text: String)
        ensures
            text@ == report_text(*self),
    {
        let mut text = "install=".to_owned();
        text.append(decimal_text(self.installs as u64).as_str());
        text.append(" dl=");
        text.append(decimal_text(self.downloads as u64).as_str());
        text.append(" request=");
        text.append(decimal_text(self.requests as u64).as_str());
        text.append(" tmp=");
        text.append(decimal_text(self.temporary as u64).as_str());
        text
    }
}

/// A file in the directory of the requests.
#[derive(Debug)]
pub struct RequestEntry {
    pub name: Vec<u8>,
    pub links: u64,
}

/// The name of a file as it is compared with inodes.
pub open spec fn entry_name(entry: RequestEntry) -> Seq<char> {
    lossy_text(entry.name@)
}

/// Whether a file in the directory of the requests is of no use: the plan file is
/// gone, or nobody knows the request.
pub open spec fn is_stale(known: Set<Seq<char>>, entry: RequestEntry) -> bool {
    entry.links == 1 || !known.contains(entry_name(entry))
}

/// The names of the files that are of no use, in order.
pub open spec fn stale_names(known: Set<Seq<char>>, entries: Seq<RequestEntry>) -> Seq<Seq<u8>>
    decreases entries.len(),
{
    if entries.len() == 0 {
        Seq::empty()
    } else {
        let before = stale_names(known, entries.drop_last());
        if is_stale(known, entries.last()) {
            before.push(entries.last().name@)
        } else {
            before
        }
    }
}

/// The files that stay, in order.
pub open spec fn kept_entries(known: Set<Seq<char>>, entries: Seq<RequestEntry>) -> Seq<
    RequestEntry,
>
    decreases entries.len(),
{
    if entries.len() == 0 {
        Seq::empty()
    } else {
        let before = kept_entries(known, entries.drop_last());
        if is_stale(known, entries.last()) {
            before
        } else {
            before.push(entries.last())
        }
    }
}

/// The inodes whose plan file is gone.
pub open spec fn orphans(entries: Seq<RequestEntry>) -> Set<Seq<char>> {
    Set::new(
        |inode: Seq<char>|
            exists|i: int|
                0 <= i < entries.len() && (#[trigger] entries[i]).links == 1 && entry_name(
                    entries[i],
                ) == inode,
    )
}

/// The inodes without a file in the directory of the requests.
pub open spec fn missing(known: Seq<Seq<char>>, exists: Seq<bool>) -> Seq<Seq<char>>
    decreases known.len(),
{
    if known.len() == 0 {
        Seq::empty()
    } else {
        let before = missing(known.drop_last(), exists);
        if exists[known.len() - 1] {
            before
        } else {
            before.push(known.last())
        }
    }
}

/// The intents without the requests that have ended.
pub open spec fn collected(
    intents: IntentsView,
    known: Seq<Seq<char>>,
    exists: Seq<bool>,
    entries: Seq<RequestEntry>,
) -> IntentsView {
    pruned(
        IntentsView {
            requests: intents.requests.remove_keys(missing(known, exists).to_set()).remove_keys(
                orphans(entries),
            ),
            relations: intents.relations,
        },
    )
}

/// What a collection does to the requests.
#[derive(Debug)]
pub struct RequestSweep {
    /// The files to remove.
    pub removals: Vec<Vec<u8>>,
    /// How many requests have ended, and files are of no use.
    pub count: usize,
}

proof fn lemma_remove_keys_more(
    map: Map<Seq<char>, Seq<char>>,
    keys: Set<Seq<char>>,
    key: Seq<char>,
)
    ensures
        map.remove_keys(keys).remove(key) == map.remove_keys(keys.insert(key)),
{
    assert(map.remove_keys(keys).remove(key) =~= map.remove_keys(keys.insert(key)));
}

proof fn lemma_orphans_more(entries: Seq<RequestEntry>, count: int)
    requires
        0 <= count < entries.len(),
    ensures
        entries[count].links == 1 ==> orphans(entries.take(count + 1)) == orphans(
            entries.take(count),
        ).insert(entry_name(entries[count])),
        entries[count].links != 1 ==> orphans(entries.take(count + 1)) == orphans(
            entries.take(count),
        ),
{
    let before = entries.take(count);
    let after = entries.take(count + 1);
    assert forall|inode: Seq<char>| orphans(before).contains(inode) implies orphans(after).contains(
        inode,
    ) by {
        let i = choose|i: int|
            0 <= i < before.len() && (#[trigger] before[i]).links == 1 && entry_name(before[i])
                == inode;
        assert(after[i].links == 1 && entry_name(after[i]) == inode);
    }
    if entries[count].links == 1 {
        assert(after[count].links == 1);
        assert(orphans(after).contains(entry_name(entries[count])));
    }
    assert forall|inode: Seq<char>| orphans(after).contains(inode) implies orphans(before).contains(
        inode,
    ) || entries[count].links == 1 && inode == entry_name(entries[count]) by {
        let i = choose|i: int|
            0 <= i < after.len() && (#[trigger] after[i]).links == 1 && entry_name(after[i])
                == inode;
        if i < count {
            assert(before[i].links == 1 && entry_name(before[i]) == inode);
        }
    }
    if entries[count].links == 1 {
        assert(orphans(after) =~= orphans(before).insert(entry_name(entries[count])));
    } else {
        assert(orphans(after) =~= orphans(before));
    }
}

/// Removes the requests that have ended: those without a file in the directory of
/// the requests, and those whose plan file is gone. Tells which files are of no
/// use.
///
/// `known` are the inodes of all requests, and `exists` tells of each whether its
/// file is there.
pub fn collect_requests(
    intents: &mut Intents,
    known: &Vec<String>,
    exists: &Vec<bool>,
    entries: &Vec<RequestEntry>,
) -> (sweep: RequestSweep)
    requires
        old(intents).well_formed(),
        texts(known@).to_set() == old(intents)@.requests.dom(),
        known.len() == exists.len(),
        known.len() + entries.len() <= usize::MAX,
    ensures
        final(intents).well_formed(),
        final(intents)@ == collected(old(intents)@, texts(known@), exists@, entries@),
        raws(sweep.removals@) == stale_names(old(intents)@.requests.dom(), entries@),
        sweep.count == missing(texts(known@), exists@).len() + sweep.removals@.len(),
{
    let ghost inodes = texts(known@);
    let ghost all = intents@.requests.dom();
    let ghost first = intents@.requests;
    let ghost relations = intents@.relations;
    let mut count: usize = 0;
    let mut i: usize = 0;
    assert(first =~= first.remove_keys(missing(inodes.take(0), exists@).to_set()));
    while i < known.len()
        invariant
            i <= known.len(),
            known.len() == exists.len(),
            known.len() + entries.len() <= usize::MAX,
            inodes == texts(known@),
            intents.well_formed(),
            intents@.relations == relations,
            intents@.requests == first.remove_keys(
                missing(inodes.take(i as int), exists@).to_set(),
            ),
            count == missing(inodes.take(i as int), exists@).len(),
            count <= i,
        decreases known.len() - i,
    {
        let ghost gone = missing(inodes.take(i as int), exists@);
        proof {
            assert(inodes.take(i + 1).drop_last() == inodes.take(i as int));
            lemma_push_to_set(gone, inodes[i as int]);
            lemma_remove_keys_more(first, gone.to_set(), inodes[i as int]);
        }
        if !exists[i] {
            intents.remove_request(known[i].as_str());
            count += 1;
        }
        i += 1;
    }
    assert(inodes.take(i as int) == inodes);
    let ghost present = intents@.requests;
    let mut removals: Vec<Vec<u8>> = Vec::new();
    let mut k: usize = 0;
    assert(raws(removals@) =~= stale_names(all, entries@.take(0)));
    assert(present =~= present.remove_keys(orphans(entries@.take(0))));
    while k < entries.len()
        invariant
            k <= entries.len(),
            inodes == texts(known@),
            inodes.to_set() == all,
            first.dom() == all,
            present == first.remove_keys(missing(inodes, exists@).to_set()),
            intents.well_formed(),
            intents@.relations == relations,
            intents@.requests == present.remove_keys(orphans(entries@.take(k as int))),
            raws(removals@) == stale_names(all, entries@.take(k as int)),
            removals.len() <= k,
        decreases entries.len() - k,
    {
        let ghost earlier = raws(removals@);
        let entry = &entries[k];
        let name = lossy(entry.name.as_slice());
        let is_known = contains_text(known.as_slice(), &name);
        proof {
            assert(entries@.take(k + 1).drop_last() == entries@.take(k as int));
            lemma_orphans_more(entries@, k as int);
            lemma_remove_keys_more(present, orphans(entries@.take(k as int)), name@);
            assert(is_known == all.contains(name@)) by {
                assert(inodes.to_set().contains(name@) == inodes.contains(name@));
            }
        }
        if entry.links == 1 || !is_known {
            if is_known {
                intents.remove_request(name.as_str());
            } else {
                assert(intents@.requests =~= intents@.requests.remove(name@));
            }
            removals.push(vstd::slice::slice_to_vec(entry.name.as_slice()));
            assert(raws(removals@) =~= earlier.push(entry.name@));
        }
        k += 1;
    }
    assert(entries@.take(k as int) == entries@);
    intents.remove_unreferenced_download_relations();
    assert(intents@ == collected(old(intents)@, inodes, exists@, entries@));
    RequestSweep { count: count + removals.len(), removals }
}

/// Whether a name in a directory of objects belongs to one of the keys.
pub open spec fn is_named(keys: Set<Seq<char>>, name: Seq<u8>) -> bool {
    exists|key: Seq<char>| #[trigger] keys.contains(key) && key_digest(key) == lossy_text(name)
}

/// The names that belong to none of the keys, in order.
pub open spec fn unnamed(keys: Set<Seq<char>>, names: Seq<Seq<u8>>) -> Seq<Seq<u8>>
    decreases names.len(),
{
    if names.len() == 0 {
        Seq::empty()
    } else {
        let before = unnamed(keys, names.drop_last());
        if is_named(keys, names.last()) {
            before
        } else {
            before.push(names.last())
        }
    }
}

/// The names in a directory of objects that belong to no live key.
pub fn sweep_keyed_dir(names: &Vec<Vec<u8>>, live_keys: &Vec<String>) -> (removals: Vec<Vec<u8>>)
    ensures
        raws(removals@) == unnamed(texts(live_keys@).to_set(), raws(names@)),
{
    let ghost keys = texts(live_keys@);
    let mut live_names: Vec<String> = Vec::new();
    let mut i: usize = 0;
    while i < live_keys.len()
        invariant
            i <= live_keys.len(),
            live_names.len() == i,
            keys == texts(live_keys@),
            forall|k: int| 0 <= k < i ==> #[trigger] texts(live_names@)[k] == key_digest(keys[k]),
        decreases live_keys.len() - i,
    {
        let ghost before = texts(live_names@);
        live_names.push(key_name(live_keys[i].as_str()));
        assert(texts(live_names@) =~= before.push(key_digest(keys[i as int])));
        i += 1;
    }
    let ghost all = raws(names@);
    let mut removals: Vec<Vec<u8>> = Vec::new();
    let mut j: usize = 0;
    assert(raws(removals@) =~= unnamed(keys.to_set(), all.take(0)));
    while j < names.len()
        invariant
            j <= names.len(),
            all == raws(names@),
            live_names.len() == keys.len(),
            forall|k: int|
                0 <= k < keys.len() ==> #[trigger] texts(live_names@)[k] == key_digest(keys[k]),
            raws(removals@) == unnamed(keys.to_set(), all.take(j as int)),
        decreases names.len() - j,
    {
        let ghost earlier = raws(removals@);
        let name = lossy(names[j].as_slice());
        let live = contains_text(live_names.as_slice(), &name);
        proof {
            assert(all.take(j + 1).drop_last() == all.take(j as int));
            assert(all[j as int] == names@[j as int]@);
            if live {
                let k = choose|k: int|
                    0 <= k < texts(live_names@).len() && texts(live_names@)[k] == name@;
                assert(keys.to_set().contains(keys[k]));
            } else if is_named(keys.to_set(), all[j as int]) {
                let key = choose|key: Seq<char>| #[trigger]
                    keys.to_set().contains(key) && key_digest(key) == lossy_text(all[j as int]);
                let k = choose|k: int| 0 <= k < keys.len() && keys[k] == key;
                assert(texts(live_names@)[k] == name@);
            }
        }
        if !live {
            removals.push(vstd::slice::slice_to_vec(names[j].as_slice()));
            assert(raws(removals@) =~= earlier.push(all[j as int]));
        }
        j += 1;
    }
    assert(all.take(j as int) == all);
    removals
}

/// The names in a directory of which nothing is kept: all of them.
pub fn sweep_all(names: &Vec<Vec<u8>>) -> (removals: Vec<Vec<u8>>)
    ensures
        raws(removals@) == raws(names@),
{
    let mut removals: Vec<Vec<u8>> = Vec::new();
    let mut i: usize = 0;
    while i < names.len()
        invariant
            i <= names.len(),
            raws(removals@) == raws(names@).take(i as int),
        decreases names.len() - i,
    {
        let ghost earlier = raws(removals@);
        removals.push(vstd::slice::slice_to_vec(names[i].as_slice()));
        assert(raws(removals@) =~= earlier.push(raws(names@)[i as int]));
        i += 1;
    }
    assert(raws(names@).take(i as int) == raws(names@));
    removals
}

/// What a collection finds in a store.
#[derive(Debug)]
pub struct Listing {
    /// The inodes of all requests.
    pub known: Vec<String>,
    /// Whether the file of each of them is there.
    pub exists: Vec<bool>,
    /// The files in the directory of the requests.
    pub requests: Vec<RequestEntry>,
    /// The names in the directory of the installations.
    pub installs: Vec<Vec<u8>>,
    /// The names in the directory of the downloads.
    pub downloads: Vec<Vec<u8>>,
    /// The names in the directory of what is being made.
    pub temporary: Vec<Vec<u8>>,
}

/// The mathematical form of [`Listing`].
pub struct ListingView {
    pub known: Seq<Seq<char>>,
    pub exists: Seq<bool>,
    pub requests: Seq<RequestEntry>,
    pub installs: Seq<Seq<u8>>,
    pub downloads: Seq<Seq<u8>>,
    pub temporary: Seq<Seq<u8>>,
}

impl View for Listing {
    type V = ListingView;

    open spec fn view(&self) -> ListingView {
        ListingView {
            known: texts(self.known@),
            exists: self.exists@,
            requests: self.requests@,
            installs: raws(self.installs@),
            downloads: raws(self.downloads@),
            temporary: raws(self.temporary@),
        }
    }
}

/// What a collection removes from the directories of a store.
#[derive(Debug)]
pub struct Sweep {
    pub requests: Vec<Vec<u8>>,
    pub installs: Vec<Vec<u8>>,
    pub downloads: Vec<Vec<u8>>,
    pub temporary: Vec<Vec<u8>>,
    pub report: GcReport,
}

/// The mathematical form of [`Sweep`].
#[verifier::ext_equal]
pub struct SweepView {
    pub requests: Seq<Seq<u8>>,
    pub installs: Seq<Seq<u8>>,
    pub downloads: Seq<Seq<u8>>,
    pub temporary: Seq<Seq<u8>>,
    pub report: ReportView,
}

/// The mathematical form of [`GcReport`].
pub struct ReportView {
    pub installs: nat,
    pub downloads: nat,
    pub requests: nat,
    pub temporary: nat,
}

impl View for GcReport {
    type V = ReportView;

    open spec fn view(&self) -> ReportView {
        ReportView {
            installs: self.installs as nat,
            downloads: self.downloads as nat,
            requests: self.requests as nat,
            temporary: self.temporary as nat,
        }
    }
}

impl View for Sweep {
    type V = SweepView;

    open spec fn view(&self) -> SweepView {
        SweepView {
            requests: raws(self.requests@),
            installs: raws(self.installs@),
            downloads: raws(self.downloads@),
            temporary: raws(self.temporary@),
            report: self.report@,
        }
    }
}

/// The intents after a collection.
pub open spec fn intents_after(intents: IntentsView, listing: ListingView) -> IntentsView {
    collected(intents, listing.known, listing.exists, listing.requests)
}

/// What a collection removes, and how much of it.
pub open spec fn sweep_of(intents: IntentsView, listing: ListingView) -> SweepView {
    let after = intents_after(intents, listing);
    let requests = stale_names(intents.requests.dom(), listing.requests);
    let installs = unnamed(live_plans(after), listing.installs);
    let downloads = unnamed(live_downloads(after), listing.downloads);
    SweepView {
        requests,
        installs,
        downloads,
        temporary: listing.temporary,
        report: ReportView {
            installs: installs.len(),
            downloads: downloads.len(),
            requests: missing(listing.known, listing.exists).len() + requests.len(),
            temporary: listing.temporary.len(),
        },
    }
}

/// A report of nothing.
pub open spec fn empty_report() -> ReportView {
    ReportView { installs: 0, downloads: 0, requests: 0, temporary: 0 }
}

impl Store {
    /// Collects what nobody wants: ends the requests whose plan file is gone, and
    /// then tells which installations and downloads no request wants. What is
    /// being made belongs to nobody.
    pub fn gc(&self, intents: &mut Intents, listing: &Listing) -> (sweep: Sweep)
        requires
            old(intents).well_formed(),
            texts(listing.known@).to_set() == old(intents)@.requests.dom(),
            listing.known.len() == listing.exists.len(),
            listing.known.len() + listing.requests.len() <= usize::MAX,
        ensures
            final(intents).well_formed(),
            final(intents)@ == intents_after(old(intents)@, listing@),
            sweep@ == sweep_of(old(intents)@, listing@),
            forall|name: Seq<u8>| #[trigger]
                sweep@.installs.contains(name) <==> listing@.installs.contains(name) && forall|
                    inode: Seq<char>,
                | #[trigger]
                    final(intents)@.requests.contains_key(inode) ==> hex_text(
                        sha256(encode_utf8(final(intents)@.requests[inode])),
                    ) != lossy_text(name),
            forall|name: Seq<u8>| #[trigger]
                sweep@.downloads.contains(name) <==> listing@.downloads.contains(name) && forall|
                    inode: Seq<char>,
                    download: Seq<char>,
                |
                    #![trigger final(intents)@.requests.contains_key(inode), final(intents)@.relations.contains((final(intents)@.requests[inode], download))]
                    final(intents)@.requests.contains_key(inode)
                        && final(intents)@.relations.contains(
                        (final(intents)@.requests[inode], download),
                    ) ==> hex_text(sha256(encode_utf8(download))) != lossy_text(name),
    {
        let requests = collect_requests(
            intents,
            &listing.known,
            &listing.exists,
            &listing.requests,
        );
        let live_plans = intents.live_plan_keys();
        let live_downloads = intents.live_download_keys();
        let installs = sweep_keyed_dir(&listing.installs, &live_plans);
        let downloads = sweep_keyed_dir(&listing.downloads, &live_downloads);
        let temporary = sweep_all(&listing.temporary);
        let report = GcReport {
            installs: installs.len(),
            downloads: downloads.len(),
            requests: requests.count,
            temporary: temporary.len(),
        };
        proof {
            lemma_swept_by_requests(intents@, listing@.installs, listing@.downloads);
        }
        Sweep { requests: requests.removals, installs, downloads, temporary, report }
    }
}

/// A collection removes from a directory exactly the names that belong to no live
/// key, and keeps the others.
pub proof fn swept_are_the_unnamed(keys: Set<Seq<char>>, names: Seq<Seq<u8>>, name: Seq<u8>)
    ensures
        unnamed(keys, names).contains(name) <==> names.contains(name) && !is_named(keys, name),
    decreases names.len(),
{
    if names.len() > 0 {
        let less = names.drop_last();
        swept_are_the_unnamed(keys, less, name);
        let before = unnamed(keys, less);
        let after = unnamed(keys, names);
        if names.contains(name) {
            let i = choose|i: int| 0 <= i < names.len() && names[i] == name;
            if i < less.len() {
                assert(less[i] == name);
            }
        }
        if less.contains(name) {
            let i = choose|i: int| 0 <= i < less.len() && less[i] == name;
            assert(names[i] == name);
        }
        if names.last() == name {
            assert(names[names.len() - 1] == name);
        }
        if before.contains(name) {
            let i = choose|i: int| 0 <= i < before.len() && before[i] == name;
            assert(after[i] == name);
        }
        if !is_named(keys, names.last()) {
            assert(after[before.len() as int] == names.last());
        }
        if after.contains(name) {
            let i = choose|i: int| 0 <= i < after.len() && after[i] == name;
            if i < before.len() {
                assert(before[i] == name);
            }
        }
    }
}

proof fn lemma_swept_by_requests(
    intents: IntentsView,
    installs: Seq<Seq<u8>>,
    downloads: Seq<Seq<u8>>,
)
    ensures
        forall|name: Seq<u8>| #[trigger]
            unnamed(live_plans(intents), installs).contains(name) <==> installs.contains(name)
                && forall|inode: Seq<char>| #[trigger]
                intents.requests.contains_key(inode) ==> hex_text(
                    sha256(encode_utf8(intents.requests[inode])),
                ) != lossy_text(name),
        forall|name: Seq<u8>| #[trigger]
            unnamed(live_downloads(intents), downloads).contains(name) <==> downloads.contains(name)
                && forall|inode: Seq<char>, download: Seq<char>|
                #![trigger intents.requests.contains_key(inode), intents.relations.contains((intents.requests[inode], download))]
                intents.requests.contains_key(inode) && intents.relations.contains(
                    (intents.requests[inode], download),
                ) ==> hex_text(sha256(encode_utf8(download))) != lossy_text(name),
{
    live_is_what_requests_want(intents);
    assert forall|name: Seq<u8>| #[trigger]
        unnamed(live_plans(intents), installs).contains(name) <==> installs.contains(name)
            && forall|inode: Seq<char>| #[trigger]
            intents.requests.contains_key(inode) ==> hex_text(
                sha256(encode_utf8(intents.requests[inode])),
            ) != lossy_text(name) by {
        swept_are_the_unnamed(live_plans(intents), installs, name);
        if is_named(live_plans(intents), name) {
            let plan = choose|plan: Seq<char>| #[trigger]
                live_plans(intents).contains(plan) && key_digest(plan) == lossy_text(name);
            let inode = choose|inode: Seq<char>| #[trigger]
                intents.requests.contains_key(inode) && intents.requests[inode] == plan;
            assert(intents.requests.contains_key(inode));
        } else {
            assert forall|inode: Seq<char>| #[trigger]
                intents.requests.contains_key(inode) implies hex_text(
                sha256(encode_utf8(intents.requests[inode])),
            ) != lossy_text(name) by {
                assert(live_plans(intents).contains(intents.requests[inode]));
            }
        }
    }
    assert forall|name: Seq<u8>| #[trigger]
        unnamed(live_downloads(intents), downloads).contains(name) <==> downloads.contains(name)
            && forall|inode: Seq<char>, download: Seq<char>|
            #![trigger intents.requests.contains_key(inode), intents.relations.contains((intents.requests[inode], download))]
            intents.requests.contains_key(inode) && intents.relations.contains(
                (intents.requests[inode], download),
            ) ==> hex_text(sha256(encode_utf8(download))) != lossy_text(name) by {
        swept_are_the_unnamed(live_downloads(intents), downloads, name);
        if is_named(live_downloads(intents), name) {
            let download = choose|download: Seq<char>| #[trigger]
                live_downloads(intents).contains(download) && key_digest(download) == lossy_text(
                    name,
                );
            let inode = choose|inode: Seq<char>| #[trigger]
                intents.requests.contains_key(inode) && intents.relations.contains(
                    (intents.requests[inode], download),
                );
            assert(intents.requests.contains_key(inode) && intents.relations.contains(
                (intents.requests[inode], download),
            ));
        } else {
            assert forall|inode: Seq<char>, download: Seq<char>|
                #![trigger intents.requests.contains_key(inode), intents.relations.contains((intents.requests[inode], download))]
                intents.requests.contains_key(inode) && intents.relations.contains(
                    (intents.requests[inode], download),
                ) implies hex_text(sha256(encode_utf8(download))) != lossy_text(name) by {
                assert(live_downloads(intents).contains(download));
            }
        }
    }
}

/// A second collection finds nothing more to remove from a directory.
pub proof fn nothing_is_swept_twice(
    keys: Set<Seq<char>>,
    names: Seq<Seq<u8>>,
    left: Seq<Seq<u8>>,
)
    requires
        forall|i: int|
            0 <= i < left.len() ==> names.contains(#[trigger] left[i]) && !unnamed(
                keys,
                names,
            ).contains(left[i]),
    ensures
        unnamed(keys, left) == Seq::<Seq<u8>>::empty(),
{
    if unnamed(keys, left).len() > 0 {
        let name = unnamed(keys, left)[0];
        assert(unnamed(keys, left).contains(name));
        swept_are_the_unnamed(keys, left, name);
        let i = choose|i: int| 0 <= i < left.len() && left[i] == name;
        swept_are_the_unnamed(keys, names, left[i]);
    }
    assert(unnamed(keys, left) =~= Seq::<Seq<u8>>::empty());
}

/// A request whose files are there outlives a collection, and one whose file is
/// missing or whose plan file is gone does not.
pub proof fn requests_end_with_their_files(
    intents: IntentsView,
    known: Seq<Seq<char>>,
    exists: Seq<bool>,
    entries: Seq<RequestEntry>,
    inode: Seq<char>,
)
    requires
        intents.requests.contains_key(inode),
    ensures
        ({
            let after = collected(intents, known, exists, entries);
            let ended = missing(known, exists).contains(inode) || orphans(entries).contains(inode);
            &&& after.requests.contains_key(inode) == !ended
            &&& !ended ==> after.requests[inode] == intents.requests[inode]
        }),
{
    assert(missing(known, exists).to_set().contains(inode) == missing(known, exists).contains(
        inode,
    ));
}

/// An installation outlives a collection for as long as a request wants its plan,
/// and so do the downloads of that plan.
pub proof fn wanted_objects_outlive_a_collection(
    intents: IntentsView,
    known: Seq<Seq<char>>,
    exists: Seq<bool>,
    entries: Seq<RequestEntry>,
    inode: Seq<char>,
    download: Seq<char>,
    installs: Seq<Seq<u8>>,
    downloads: Seq<Seq<u8>>,
    name: Seq<u8>,
)
    requires
        intents.requests.contains_key(inode),
        !missing(known, exists).contains(inode),
        !orphans(entries).contains(inode),
    ensures
        ({
            let after = collected(intents, known, exists, entries);
            &&& lossy_text(name) == key_digest(intents.requests[inode]) ==> !unnamed(
                live_plans(after),
                installs,
            ).contains(name)
            &&& intents.relations.contains((intents.requests[inode], download)) && lossy_text(name)
                == key_digest(download) ==> !unnamed(
                live_downloads(after),
                downloads,
            ).contains(name)
        }),
{
    let after = collected(intents, known, exists, entries);
    let plan = intents.requests[inode];
    requests_end_with_their_files(intents, known, exists, entries, inode);
    assert(after.requests.dom().contains(inode) && after.requests[inode] == plan);
    assert(live_plans(after).contains(plan));
    let before = IntentsView { requests: after.requests, relations: intents.relations };
    pruning_keeps_what_is_live(before);
    if intents.relations.contains((plan, download)) {
        assert(live_plans(before).contains(plan) && before.relations.contains((plan, download)));
        assert(live_downloads(after).contains(download));
    }
    swept_are_the_unnamed(live_plans(after), installs, name);
    swept_are_the_unnamed(live_downloads(after), downloads, name);
}

/// An installation goes with the last request that wants its plan, unless its name
/// is also that of a plan that is wanted.
pub proof fn unwanted_installations_go(
    intents: IntentsView,
    known: Seq<Seq<char>>,
    exists: Seq<bool>,
    entries: Seq<RequestEntry>,
    installs: Seq<Seq<u8>>,
    name: Seq<u8>,
)
    requires
        installs.contains(name),
        forall|inode: Seq<char>|
            intents.requests.contains_key(inode) && key_digest(#[trigger] intents.requests[inode])
                == lossy_text(name) ==> missing(known, exists).contains(inode) || orphans(
                entries,
            ).contains(inode),
    ensures
        unnamed(live_plans(collected(intents, known, exists, entries)), installs).contains(name),
{
    let after = collected(intents, known, exists, entries);
    if is_named(live_plans(after), name) {
        let plan = choose|plan: Seq<char>| #[trigger]
            live_plans(after).contains(plan) && key_digest(plan) == lossy_text(name);
        let inode = choose|inode: Seq<char>| #[trigger]
            after.requests.dom().contains(inode) && after.requests[inode] == plan;
        assert(intents.requests.contains_key(inode));
        requests_end_with_their_files(intents, known, exists, entries, inode);
        assert(intents.requests[inode] == plan);
    }
    swept_are_the_unnamed(live_plans(after), installs, name);
}

/// A collection that finds all files in their places changes no intent that an
/// earlier one left.
pub proof fn collecting_again_changes_nothing(
    intents: IntentsView,
    known: Seq<Seq<char>>,
    exists: Seq<bool>,
    entries: Seq<RequestEntry>,
    known_later: Seq<Seq<char>>,
    exists_later: Seq<bool>,
    entries_later: Seq<RequestEntry>,
)
    requires
        missing(known_later, exists_later) == Seq::<Seq<char>>::empty(),
        forall|i: int| 0 <= i < entries_later.len() ==> (#[trigger] entries_later[i]).links != 1,
    ensures
        ({
            let once = collected(intents, known, exists, entries);
            collected(once, known_later, exists_later, entries_later) == once
        }),
{
    let once = collected(intents, known, exists, entries);
    let none = missing(known_later, exists_later).to_set();
    assert(none =~= Set::<Seq<char>>::empty());
    assert(orphans(entries_later) =~= Set::<Seq<char>>::empty());
    assert(once.requests.remove_keys(none).remove_keys(orphans(entries_later)) =~= once.requests);
    let before = IntentsView {
        requests: intents.requests.remove_keys(missing(known, exists).to_set()).remove_keys(
            orphans(entries),
        ),
        relations: intents.relations,
    };
    pruning_keeps_what_is_live(before);
}

/// Whether a listing of the requests is what a directory can hold: the file of a
/// request is there if a file of that name is, and no two files have the name of
/// the same request.
pub open spec fn is_consistent(intents: IntentsView, listing: ListingView) -> bool {
    &&& listing.known.to_set() == intents.requests.dom()
    &&& listing.known.len() == listing.exists.len()
    &&& forall|i: int|
        0 <= i < listing.known.len() ==> (#[trigger] listing.exists[i] <==> exists|k: int|
            0 <= k < listing.requests.len() && entry_name(#[trigger] listing.requests[k])
                == listing.known[i])
    &&& forall|j: int, k: int|
        0 <= j < k < listing.requests.len() && entry_name(#[trigger] listing.requests[j])
            == entry_name(#[trigger] listing.requests[k]) ==> !intents.requests.contains_key(
            entry_name(listing.requests[j]),
        )
}

proof fn lemma_missing(known: Seq<Seq<char>>, exists: Seq<bool>, inode: Seq<char>)
    requires
        known.len() <= exists.len(),
    ensures
        missing(known, exists).contains(inode) <==> exists|i: int|
            0 <= i < known.len() && #[trigger] known[i] == inode && !exists[i],
    decreases known.len(),
{
    if known.len() > 0 {
        let less = known.drop_last();
        let before = missing(less, exists);
        let after = missing(known, exists);
        lemma_missing(less, exists, inode);
        if after.contains(inode) {
            let k = choose|k: int| 0 <= k < after.len() && after[k] == inode;
            if k < before.len() {
                assert(before[k] == inode);
                let i = choose|i: int|
                    0 <= i < less.len() && #[trigger] less[i] == inode && !exists[i];
                assert(known[i] == inode);
            } else {
                assert(known[known.len() - 1] == inode);
            }
        }
        if exists|i: int| 0 <= i < known.len() && #[trigger] known[i] == inode && !exists[i] {
            let i = choose|i: int|
                0 <= i < known.len() && #[trigger] known[i] == inode && !exists[i];
            if i < less.len() {
                assert(less[i] == inode);
                let k = choose|k: int| 0 <= k < before.len() && before[k] == inode;
                assert(after[k] == inode);
            } else {
                assert(after[before.len() as int] == inode);
            }
        }
    }
}

proof fn lemma_kept(known: Set<Seq<char>>, entries: Seq<RequestEntry>)
    ensures
        forall|i: int|
            0 <= i < kept_entries(known, entries).len() ==> {
                &&& !is_stale(known, #[trigger] kept_entries(known, entries)[i])
                &&& entries.contains(kept_entries(known, entries)[i])
            },
        forall|k: int|
            0 <= k < entries.len() && !is_stale(known, #[trigger] entries[k]) ==> kept_entries(
                known,
                entries,
            ).contains(entries[k]),
    decreases entries.len(),
{
    if entries.len() > 0 {
        let less = entries.drop_last();
        let before = kept_entries(known, less);
        let after = kept_entries(known, entries);
        lemma_kept(known, less);
        assert forall|i: int| 0 <= i < after.len() implies !is_stale(known, #[trigger] after[i])
            && entries.contains(after[i]) by {
            if i < before.len() {
                assert(after[i] == before[i]);
                let k = choose|k: int| 0 <= k < less.len() && less[k] == before[i];
                assert(entries[k] == after[i]);
            } else {
                assert(entries[entries.len() - 1] == after[i]);
            }
        }
        assert forall|k: int|
            0 <= k < entries.len() && !is_stale(known, #[trigger] entries[k]) implies after.contains(
            entries[k],
        ) by {
            if k < less.len() {
                assert(less[k] == entries[k]);
                let i = choose|i: int| 0 <= i < before.len() && before[i] == entries[k];
                assert(after[i] == entries[k]);
            } else {
                assert(after[before.len() as int] == entries[k]);
            }
        }
    }
}

proof fn lemma_nothing_stale(known: Set<Seq<char>>, entries: Seq<RequestEntry>)
    requires
        forall|i: int| 0 <= i < entries.len() ==> !is_stale(known, #[trigger] entries[i]),
    ensures
        stale_names(known, entries) == Seq::<Seq<u8>>::empty(),
    decreases entries.len(),
{
    if entries.len() > 0 {
        let less = entries.drop_last();
        assert forall|i: int| 0 <= i < less.len() implies !is_stale(known, #[trigger] less[i]) by {
            assert(less[i] == entries[i]);
        }
        lemma_nothing_stale(known, less);
        assert(!is_stale(known, entries[entries.len() - 1]));
    }
}

/// A second collection of a store that nobody touched reports nothing, removes
/// nothing, and changes no intent.
pub proof fn second_collection_reports_nothing(
    intents: IntentsView,
    first: ListingView,
    again: ListingView,
)
    requires
        is_consistent(intents, first),
        is_consistent(intents_after(intents, first), again),
        // What the first collection left is there, and nothing else.
        again.requests == kept_entries(intents.requests.dom(), first.requests),
        forall|i: int|
            0 <= i < again.installs.len() ==> first.installs.contains(#[trigger] again.installs[i])
                && !sweep_of(intents, first).installs.contains(again.installs[i]),
        forall|i: int|
            0 <= i < again.downloads.len() ==> first.downloads.contains(
                #[trigger] again.downloads[i],
            ) && !sweep_of(intents, first).downloads.contains(again.downloads[i]),
        again.temporary == Seq::<Seq<u8>>::empty(),
    ensures
        ({
            let once = intents_after(intents, first);
            let sweep = sweep_of(once, again);
            &&& intents_after(once, again) == once
            &&& sweep.report == empty_report()
            &&& sweep.requests == Seq::<Seq<u8>>::empty()
            &&& sweep.installs == Seq::<Seq<u8>>::empty()
            &&& sweep.downloads == Seq::<Seq<u8>>::empty()
            &&& sweep.temporary == Seq::<Seq<u8>>::empty()
        }),
{
    let once = intents_after(intents, first);
    let all = intents.requests.dom();
    lemma_kept(all, first.requests);
    // Every request that is left has a file that was kept.
    assert forall|inode: Seq<char>| once.requests.contains_key(inode) implies exists|k: int|
        0 <= k < again.requests.len() && entry_name(#[trigger] again.requests[k]) == inode by {
        requests_end_with_their_files(intents, first.known, first.exists, first.requests, inode);
        lemma_missing(first.known, first.exists, inode);
        assert(first.known.to_set().contains(inode));
        let i = choose|i: int| 0 <= i < first.known.len() && first.known[i] == inode;
        assert(first.exists[i]);
        let k = choose|k: int|
            0 <= k < first.requests.len() && entry_name(#[trigger] first.requests[k])
                == first.known[i];
        assert(first.requests[k].links != 1);
        assert(!is_stale(all, first.requests[k]));
        let j = choose|j: int|
            0 <= j < again.requests.len() && again.requests[j] == first.requests[k];
        assert(entry_name(again.requests[j]) == inode);
    }
    assert(missing(again.known, again.exists) =~= Seq::<Seq<char>>::empty()) by {
        if missing(again.known, again.exists).len() > 0 {
            let inode = missing(again.known, again.exists)[0];
            assert(missing(again.known, again.exists).contains(inode));
            lemma_missing(again.known, again.exists, inode);
            let i = choose|i: int|
                0 <= i < again.known.len() && #[trigger] again.known[i] == inode
                    && !again.exists[i];
            assert(again.known.to_set().contains(inode));
            assert(once.requests.contains_key(inode));
            assert(again.exists[i]);
        }
    }
    // Every file that was kept belongs to a request that is left.
    assert forall|k: int| 0 <= k < again.requests.len() implies !is_stale(
        once.requests.dom(),
        #[trigger] again.requests[k],
    ) by {
        let entry = again.requests[k];
        let inode = entry_name(entry);
        assert(!is_stale(all, entry));
        let j = choose|j: int| 0 <= j < first.requests.len() && first.requests[j] == entry;
        requests_end_with_their_files(intents, first.known, first.exists, first.requests, inode);
        lemma_missing(first.known, first.exists, inode);
        if missing(first.known, first.exists).contains(inode) {
            let i = choose|i: int|
                0 <= i < first.known.len() && #[trigger] first.known[i] == inode
                    && !first.exists[i];
            assert(entry_name(first.requests[j]) == first.known[i]);
            assert(first.exists[i]);
        }
        if orphans(first.requests).contains(inode) {
            let i = choose|i: int|
                0 <= i < first.requests.len() && (#[trigger] first.requests[i]).links == 1
                    && entry_name(first.requests[i]) == inode;
            assert(i != j);
            if i < j {
                assert(entry_name(first.requests[i]) == entry_name(first.requests[j]));
            } else {
                assert(entry_name(first.requests[j]) == entry_name(first.requests[i]));
            }
        }
    }
    lemma_nothing_stale(once.requests.dom(), again.requests);
    collecting_again_changes_nothing(
        intents,
        first.known,
        first.exists,
        first.requests,
        again.known,
        again.exists,
        again.requests,
    );
    nothing_is_swept_twice(live_plans(once), first.installs, again.installs);
    nothing_is_swept_twice(live_downloads(once), first.downloads, again.downloads);
}

proof fn lemma_unnamed_is_filter(
    keys: Set<Seq<char>>,
    names: Seq<Seq<u8>>,
    unwanted: spec_fn(Seq<u8>) -> bool,
)
    requires
        forall|name: Seq<u8>| #[trigger] unwanted(name) == !is_named(keys, name),
    ensures
        unnamed(keys, names) == names.filter(unwanted),
    decreases names.len(),
{
    reveal(Seq::filter);
    if names.len() > 0 {
        lemma_unnamed_is_filter(keys, names.drop_last(), unwanted);
        assert(unwanted(names.last()) == !is_named(keys, names.last()));
    } else {
        assert(unnamed(keys, names) =~= names.filter(unwanted));
    }
}

proof fn lemma_stale_is_filter(known: Set<Seq<char>>, entries: Seq<RequestEntry>)
    ensures
        stale_names(known, entries) == entries.filter(
            |entry: RequestEntry| entry.links == 1 || !known.contains(lossy_text(entry.name@)),
        ).map_values(|entry: RequestEntry| entry.name@),
    decreases entries.len(),
{
    reveal(Seq::filter);
    let stale = |entry: RequestEntry| entry.links == 1 || !known.contains(lossy_text(entry.name@));
    let named = |entry: RequestEntry| entry.name@;
    if entries.len() > 0 {
        let fewer = entries.drop_last();
        lemma_stale_is_filter(known, fewer);
        assert(stale_names(known, fewer) == fewer.filter(stale).map_values(named));
        if stale(entries.last()) {
            assert(fewer.filter(stale).push(entries.last()).map_values(named) =~= fewer.filter(
                stale,
            ).map_values(named).push(entries.last().name@));
        }
    } else {
        assert(stale_names(known, entries) =~= entries.filter(stale).map_values(named));
    }
}

proof fn lemma_missing_count(known: Seq<Seq<char>>, exists: Seq<bool>)
    requires
        known.len() <= exists.len(),
    ensures
        missing(known, exists).len() == Seq::new(known.len(), |i: int| i).filter(
            |i: int| !exists[i],
        ).len(),
    decreases known.len(),
{
    reveal(Seq::filter);
    let all = Seq::new(known.len(), |i: int| i);
    if known.len() > 0 {
        let fewer = known.drop_last();
        lemma_missing_count(fewer, exists);
        assert(all.drop_last() =~= Seq::new(fewer.len(), |i: int| i));
        assert(all.last() == known.len() - 1);
    }
}

/// What a collection leaves of the intents: the requests whose file is there and whose
/// plan file is not gone, each with its plan, and the downloads of the plans that these
/// want.
pub proof fn live_requests_are_left(intents: IntentsView, listing: ListingView)
    requires
        listing.known.len() == listing.exists.len(),
    ensures
        ({
            let lives = |inode: Seq<char>|
                {
                    &&& intents.requests.contains_key(inode)
                    &&& forall|i: int|
                        0 <= i < listing.known.len() && #[trigger] listing.known[i] == inode
                            ==> listing.exists[i]
                    &&& forall|k: int|
                        0 <= k < listing.requests.len() && lossy_text(
                            (#[trigger] listing.requests[k]).name@,
                        ) == inode ==> listing.requests[k].links != 1
                };
            let after = intents_after(intents, listing);
            &&& forall|inode: Seq<char>| #[trigger]
                after.requests.contains_key(inode) <==> lives(inode)
            &&& forall|inode: Seq<char>| #[trigger]
                after.requests.contains_key(inode) ==> after.requests[inode]
                    == intents.requests[inode]
            &&& forall|plan: Seq<char>, download: Seq<char>| #[trigger]
                after.relations.contains((plan, download)) <==> intents.relations.contains(
                    (plan, download),
                ) && exists|inode: Seq<char>| #[trigger]
                    lives(inode) && intents.requests[inode] == plan
        }),
{
    let after = intents_after(intents, listing);
    let lives = |inode: Seq<char>|
        {
            &&& intents.requests.contains_key(inode)
            &&& forall|i: int|
                0 <= i < listing.known.len() && #[trigger] listing.known[i] == inode
                    ==> listing.exists[i]
            &&& forall|k: int|
                0 <= k < listing.requests.len() && lossy_text(
                    (#[trigger] listing.requests[k]).name@,
                ) == inode ==> listing.requests[k].links != 1
        };
    assert forall|inode: Seq<char>| #[trigger]
        after.requests.contains_key(inode) <==> lives(inode) by {
        lemma_missing(listing.known, listing.exists, inode);
        if intents.requests.contains_key(inode) {
            requests_end_with_their_files(
                intents,
                listing.known,
                listing.exists,
                listing.requests,
                inode,
            );
            if !orphans(listing.requests).contains(inode) {
                assert forall|k: int|
                    0 <= k < listing.requests.len() && lossy_text(
                        (#[trigger] listing.requests[k]).name@,
                    ) == inode implies listing.requests[k].links != 1 by {
                    if listing.requests[k].links == 1 {
                        assert(entry_name(listing.requests[k]) == inode);
                    }
                }
            }
        }
    }
    let before = IntentsView { requests: after.requests, relations: intents.relations };
    assert forall|plan: Seq<char>, download: Seq<char>| #[trigger]
        after.relations.contains((plan, download)) <==> intents.relations.contains(
            (plan, download),
        ) && exists|inode: Seq<char>| #[trigger]
            lives(inode) && intents.requests[inode] == plan by {
        assert(after.relations.contains((plan, download)) <==> intents.relations.contains(
            (plan, download),
        ) && live_plans(before).contains(plan));
        if live_plans(before).contains(plan) {
            let inode = choose|inode: Seq<char>| #[trigger]
                after.requests.dom().contains(inode) && after.requests[inode] == plan;
            assert(after.requests.contains_key(inode));
            assert(lives(inode) && intents.requests[inode] == plan);
        }
        if exists|inode: Seq<char>| #[trigger] lives(inode) && intents.requests[inode] == plan {
            let inode = choose|inode: Seq<char>| #[trigger]
                lives(inode) && intents.requests[inode] == plan;
            assert(after.requests.contains_key(inode));
            assert(after.requests.dom().contains(inode) && after.requests[inode] == plan);
        }
    }
}

/// A collection hands out for removal, of the installations that are listed, those whose
/// name is the digest of no plan that a request still wants; of the downloads, those
/// whose name is the digest of no download of such a plan; and all that was being made.
/// It keeps their order. Where no request is left, all of them go.
pub proof fn unwanted_objects_go(intents: IntentsView, listing: ListingView)
    requires
        listing.known.len() == listing.exists.len(),
    ensures
        ({
            let lives = |inode: Seq<char>|
                {
                    &&& intents.requests.contains_key(inode)
                    &&& forall|i: int|
                        0 <= i < listing.known.len() && #[trigger] listing.known[i] == inode
                            ==> listing.exists[i]
                    &&& forall|k: int|
                        0 <= k < listing.requests.len() && lossy_text(
                            (#[trigger] listing.requests[k]).name@,
                        ) == inode ==> listing.requests[k].links != 1
                };
            let sweep = sweep_of(intents, listing);
            &&& sweep.installs == listing.installs.filter(
                |name: Seq<u8>|
                    forall|inode: Seq<char>| #[trigger]
                        lives(inode) ==> hex_text(sha256(encode_utf8(intents.requests[inode])))
                            != lossy_text(name),
            )
            &&& sweep.downloads == listing.downloads.filter(
                |name: Seq<u8>|
                    forall|inode: Seq<char>, download: Seq<char>|
                        #![trigger lives(inode), intents.relations.contains((intents.requests[inode], download))]
                        lives(inode) && intents.relations.contains(
                            (intents.requests[inode], download),
                        ) ==> hex_text(sha256(encode_utf8(download))) != lossy_text(name),
            )
            &&& sweep.temporary == listing.temporary
            &&& (forall|inode: Seq<char>| !#[trigger] lives(inode)) ==> sweep.installs
                == listing.installs && sweep.downloads == listing.downloads
        }),
{
    let after = intents_after(intents, listing);
    let lives = |inode: Seq<char>|
        {
            &&& intents.requests.contains_key(inode)
            &&& forall|i: int|
                0 <= i < listing.known.len() && #[trigger] listing.known[i] == inode
                    ==> listing.exists[i]
            &&& forall|k: int|
                0 <= k < listing.requests.len() && lossy_text(
                    (#[trigger] listing.requests[k]).name@,
                ) == inode ==> listing.requests[k].links != 1
        };
    live_requests_are_left(intents, listing);
    let no_plan = |name: Seq<u8>|
        forall|inode: Seq<char>| #[trigger]
            lives(inode) ==> hex_text(sha256(encode_utf8(intents.requests[inode]))) != lossy_text(
                name,
            );
    let no_download = |name: Seq<u8>|
        forall|inode: Seq<char>, download: Seq<char>|
            #![trigger lives(inode), intents.relations.contains((intents.requests[inode], download))]
            lives(inode) && intents.relations.contains((intents.requests[inode], download))
                ==> hex_text(sha256(encode_utf8(download))) != lossy_text(name);
    assert forall|inode: Seq<char>| #[trigger]
        after.requests.contains_key(inode) <==> lives(inode) by {}
    assert forall|name: Seq<u8>| #[trigger] no_plan(name) == !is_named(
        live_plans(after),
        name,
    ) by {
        if is_named(live_plans(after), name) {
            let plan = choose|plan: Seq<char>| #[trigger]
                live_plans(after).contains(plan) && key_digest(plan) == lossy_text(name);
            let inode = choose|inode: Seq<char>| #[trigger]
                after.requests.dom().contains(inode) && after.requests[inode] == plan;
            assert(after.requests.contains_key(inode));
            assert(lives(inode));
            assert(!no_plan(name));
        }
        if !no_plan(name) {
            let inode = choose|inode: Seq<char>| #[trigger]
                lives(inode) && hex_text(sha256(encode_utf8(intents.requests[inode])))
                    == lossy_text(name);
            assert(after.requests.contains_key(inode));
            assert(after.requests.dom().contains(inode) && after.requests[inode]
                == intents.requests[inode]);
            assert(live_plans(after).contains(intents.requests[inode]));
            assert(is_named(live_plans(after), name));
        }
    }
    assert forall|name: Seq<u8>| #[trigger] no_download(name) == !is_named(
        live_downloads(after),
        name,
    ) by {
        if is_named(live_downloads(after), name) {
            let download = choose|download: Seq<char>| #[trigger]
                live_downloads(after).contains(download) && key_digest(download) == lossy_text(
                    name,
                );
            let plan = choose|plan: Seq<char>|
                live_plans(after).contains(plan) && after.relations.contains((plan, download));
            let inode = choose|inode: Seq<char>| #[trigger]
                after.requests.dom().contains(inode) && after.requests[inode] == plan;
            assert(after.requests.contains_key(inode));
            assert(lives(inode));
            assert(intents.relations.contains((intents.requests[inode], download)));
            assert(!no_download(name));
        }
        if !no_download(name) {
            let (inode, download) = choose|inode: Seq<char>, download: Seq<char>|
                #![trigger lives(inode), intents.relations.contains((intents.requests[inode], download))]
                lives(inode) && intents.relations.contains((intents.requests[inode], download))
                    && hex_text(sha256(encode_utf8(download))) == lossy_text(name);
            let plan = intents.requests[inode];
            assert(after.requests.contains_key(inode));
            assert(after.requests.dom().contains(inode) && after.requests[inode] == plan);
            assert(live_plans(after).contains(plan));
            assert(after.relations.contains((plan, download)));
            assert(live_downloads(after).contains(download));
            assert(key_digest(download) == lossy_text(name));
            assert(is_named(live_downloads(after), name));
        }
    }
    lemma_unnamed_is_filter(live_plans(after), listing.installs, no_plan);
    lemma_unnamed_is_filter(live_downloads(after), listing.downloads, no_download);
    if forall|inode: Seq<char>| !#[trigger] lives(inode) {
        assert forall|name: Seq<u8>| #[trigger] no_plan(name) by {}
        assert forall|name: Seq<u8>| #[trigger] no_download(name) by {}
        lemma_all_pass(listing.installs, no_plan);
        lemma_all_pass(listing.downloads, no_download);
    }
}

proof fn lemma_all_pass(names: Seq<Seq<u8>>, passes: spec_fn(Seq<u8>) -> bool)
    requires
        forall|name: Seq<u8>| #[trigger] passes(name),
    ensures
        names.filter(passes) == names,
    decreases names.len(),
{
    reveal(Seq::filter);
    if names.len() > 0 {
        lemma_all_pass(names.drop_last(), passes);
        assert(passes(names.last()));
        assert(names.drop_last().push(names.last()) =~= names);
    }
}

/// A collection hands out for removal the files of requests that have just one link or
/// that no request is known for, in order, and reports how many things of each sort go:
/// among the requests it also counts those whose file is not there.
pub proof fn collection_reports_what_goes(intents: IntentsView, listing: ListingView)
    requires
        listing.known.len() == listing.exists.len(),
    ensures
        ({
            let sweep = sweep_of(intents, listing);
            &&& sweep.requests == listing.requests.filter(
                |entry: RequestEntry|
                    entry.links == 1 || !intents.requests.dom().contains(lossy_text(entry.name@)),
            ).map_values(|entry: RequestEntry| entry.name@)
            &&& sweep.report.installs == sweep.installs.len()
            &&& sweep.report.downloads == sweep.downloads.len()
            &&& sweep.report.temporary == sweep.temporary.len()
            &&& sweep.report.requests == sweep.requests.len() + Seq::new(
                listing.known.len(),
                |i: int| i,
            ).filter(|i: int| !listing.exists[i]).len()
        }),
{
    lemma_stale_is_filter(intents.requests.dom(), listing.requests);
    lemma_missing_count(listing.known, listing.exists);
}

/// A report tells its four numbers in decimal, each behind its own name.
pub proof fn reports_are_told_by_name(report: GcReport)
    ensures
        report_text(report) == "install="@ + decimal(report.installs as nat) + " dl="@ + decimal(
            report.downloads as nat,
        ) + " request="@ + decimal(report.requests as nat) + " tmp="@ + decimal(
            report.temporary as nat,
        ),
{
}

/// The mathematical form of a listing and of what goes has each of their lists.
pub proof fn listings_keep_their_lists(listing: Listing, sweep: Sweep)
    ensures
        listing@.known == texts(listing.known@),
        listing@.exists == listing.exists@,
        listing@.requests == listing.requests@,
        listing@.installs == raws(listing.installs@),
        listing@.downloads == raws(listing.downloads@),
        listing@.temporary == raws(listing.temporary@),
        sweep@.requests == raws(sweep.requests@),
        sweep@.installs == raws(sweep.installs@),
        sweep@.downloads == raws(sweep.downloads@),
        sweep@.temporary == raws(sweep.temporary@),
        sweep@.report.installs == sweep.report.installs,
        sweep@.report.downloads == sweep.report.downloads,
        sweep@.report.requests == sweep.report.requests,
        sweep@.report.temporary == sweep.report.temporary,
{
}

} // verus!
