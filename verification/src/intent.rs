//! Intents: which requests want which plans, and which plans need which downloads.

use vstd::prelude::*;

use crate::error::{Error, ErrorView};
use crate::text::contains_text;

verus! {

use crate::text::texts;

/// The inode of a plan file and the key of the plan that it holds.
#[derive(Debug)]
pub struct Request {
    pub inode: String,
    pub plan_key: String,
}

/// A plan and a download that it needs.
#[derive(Debug)]
pub struct Relation {
    pub plan_key: String,
    pub download_key: String,
}

/// What requests say together; a later one takes the place of an earlier one with
/// the same inode.
pub open spec fn request_map(requests: Seq<Request>) -> Map<Seq<char>, Seq<char>>
    decreases requests.len(),
{
    if requests.len() == 0 {
        Map::empty()
    } else {
        request_map(requests.drop_last()).insert(
            requests.last().inode@,
            requests.last().plan_key@,
        )
    }
}

/// What relations say together.
pub open spec fn relation_set(relations: Seq<Relation>) -> Set<(Seq<char>, Seq<char>)>
    decreases relations.len(),
{
    if relations.len() == 0 {
        Set::empty()
    } else {
        relation_set(relations.drop_last()).insert(
            (relations.last().plan_key@, relations.last().download_key@),
        )
    }
}

/// Whether no two requests have the same inode.
pub open spec fn distinct_inodes(requests: Seq<Request>) -> bool
    decreases requests.len(),
{
    requests.len() == 0 || distinct_inodes(requests.drop_last()) && !request_map(
        requests.drop_last(),
    ).contains_key(requests.last().inode@)
}

/// All intents. No two requests have the same inode.
#[derive(Debug)]
pub struct Intents {
    requests: Vec<Request>,
    relations: Vec<Relation>,
}

/// The mathematical form of [`Intents`]: the plan key of each request inode, and
/// the pairs of a plan key and a download key.
#[verifier::ext_equal]
pub struct IntentsView {
    pub requests: Map<Seq<char>, Seq<char>>,
    pub relations: Set<(Seq<char>, Seq<char>)>,
}

impl View for Intents {
    type V = IntentsView;

    closed spec fn view(&self) -> IntentsView {
        IntentsView {
            requests: request_map(self.requests@),
            relations: relation_set(self.relations@),
        }
    }
}

/// The keys of the plans that a request wants.
pub open spec fn live_plans(intents: IntentsView) -> Set<Seq<char>> {
    intents.requests.values()
}

/// The keys of the downloads that a plan needs which a request wants.
pub open spec fn live_downloads(intents: IntentsView) -> Set<Seq<char>> {
    Set::new(
        |download: Seq<char>|
            exists|plan: Seq<char>|
                live_plans(intents).contains(plan) && intents.relations.contains((plan, download)),
    )
}

/// The intents with a request added.
pub open spec fn with_request(
    intents: IntentsView,
    inode: Seq<char>,
    plan_key: Seq<char>,
    downloads: Seq<Seq<char>>,
) -> IntentsView {
    IntentsView {
        requests: intents.requests.insert(inode, plan_key),
        relations: intents.relations.union(plan_relations(plan_key, downloads)),
    }
}

/// A plan with each of the downloads that it needs.
pub open spec fn plan_relations(plan_key: Seq<char>, downloads: Seq<Seq<char>>) -> Set<
    (Seq<char>, Seq<char>),
> {
    Set::new(
        |relation: (Seq<char>, Seq<char>)|
            relation.0 == plan_key && downloads.contains(relation.1),
    )
}

/// The intents with a request removed.
pub open spec fn without_request(intents: IntentsView, inode: Seq<char>) -> IntentsView {
    IntentsView { requests: intents.requests.remove(inode), relations: intents.relations }
}

/// The intents without the downloads of plans that no request wants.
pub open spec fn pruned(intents: IntentsView) -> IntentsView {
    IntentsView {
        requests: intents.requests,
        relations: intents.relations.filter(
            |relation: (Seq<char>, Seq<char>)| live_plans(intents).contains(relation.0),
        ),
    }
}

/// What is wrong with a request for a plan, if anything is: an inode stands for
/// one plan only.
pub open spec fn binding_error(
    intents: IntentsView,
    inode: Seq<char>,
    plan_key: Seq<char>,
) -> Option<ErrorView> {
    if intents.requests.contains_key(inode) && intents.requests[inode] != plan_key {
        Some(ErrorView::PlanKeyConflict)
    } else {
        None
    }
}

proof fn lemma_distinct_prefix(requests: Seq<Request>, count: int)
    requires
        distinct_inodes(requests),
        0 <= count <= requests.len(),
    ensures
        distinct_inodes(requests.take(count)),
    decreases requests.len() - count,
{
    if count == requests.len() {
        assert(requests.take(count) == requests);
    } else {
        lemma_distinct_prefix(requests, count + 1);
        assert(requests.take(count + 1).drop_last() == requests.take(count));
    }
}

proof fn lemma_values_of_insert(map: Map<Seq<char>, Seq<char>>, key: Seq<char>, value: Seq<char>)
    requires
        !map.contains_key(key),
    ensures
        map.insert(key, value).values() == map.values().insert(value),
{
    let more = map.insert(key, value);
    assert forall|v: Seq<char>| map.values().insert(value).contains(v) implies more.values().contains(
        v,
    ) by {
        if v == value {
            assert(more.dom().contains(key) && more[key] == v);
        } else {
            let k = choose|k: Seq<char>| #[trigger] map.dom().contains(k) && map[k] == v;
            assert(more.dom().contains(k) && more[k] == v);
        }
    }
    assert forall|v: Seq<char>| more.values().contains(v) implies map.values().insert(
        value,
    ).contains(v) by {
        let k = choose|k: Seq<char>| #[trigger] more.dom().contains(k) && more[k] == v;
        if k != key {
            assert(map.dom().contains(k) && map[k] == v);
        }
    }
    assert(more.values() =~= map.values().insert(value));
}

impl Intents {
    /// No two requests have the same inode.
    pub closed spec fn well_formed(&self) -> bool {
        distinct_inodes(self.requests@)
    }

    /// No intents.
    pub fn new() -> (intents: Intents)
        ensures
            intents.well_formed(),
            intents@ == (IntentsView { requests: Map::empty(), relations: Set::empty() }),
    {
        Intents { requests: Vec::new(), relations: Vec::new() }
    }

    /// The intents that requests and relations are.
    pub fn load(requests: &Vec<Request>, relations: &Vec<Relation>) -> (intents: Intents)
        ensures
            intents.well_formed(),
            intents@ == (IntentsView {
                requests: request_map(requests@),
                relations: relation_set(relations@),
            }),
    {
        let mut intents = Intents::new();
        let mut i: usize = 0;
        while i < requests.len()
            invariant
                i <= requests.len(),
                intents.well_formed(),
                intents@.requests == request_map(requests@.take(i as int)),
                intents@.relations == Set::<(Seq<char>, Seq<char>)>::empty(),
            decreases requests.len() - i,
        {
            assert(requests@.take(i + 1).drop_last() == requests@.take(i as int));
            intents.put_request(requests[i].inode.as_str(), requests[i].plan_key.as_str());
            i += 1;
        }
        assert(requests@.take(i as int) == requests@);
        let mut k: usize = 0;
        while k < relations.len()
            invariant
                k <= relations.len(),
                intents.well_formed(),
                intents@.requests == request_map(requests@),
                intents@.relations == relation_set(relations@.take(k as int)),
            decreases relations.len() - k,
        {
            assert(relations@.take(k + 1).drop_last() == relations@.take(k as int));
            intents.put_relation(
                relations[k].plan_key.as_str(),
                relations[k].download_key.as_str(),
            );
            k += 1;
        }
        assert(relations@.take(k as int) == relations@);
        intents
    }

    /// The requests, one for each inode.
    pub fn requests(&self) -> (requests: &Vec<Request>)
        ensures
            request_map(requests@) == self@.requests,
            self.well_formed() ==> distinct_inodes(requests@),
    {
        &self.requests
    }

    /// The relations.
    pub fn relations(&self) -> (relations: &Vec<Relation>)
        ensures
            relation_set(relations@) == self@.relations,
    {
        &self.relations
    }

    /// The key of the plan that the request with an inode wants.
    pub fn request_plan(&self, inode: &str) -> (plan_key: Option<String>)
        ensures
            match plan_key {
                Some(plan_key) => self@.requests.contains_key(inode@) && self@.requests[inode@]
                    == plan_key@,
                None => !self@.requests.contains_key(inode@),
            },
    {
        let wanted = inode.to_owned();
        let mut plan_key: Option<String> = None;
        let mut i: usize = 0;
        while i < self.requests.len()
            invariant
                i <= self.requests.len(),
                wanted@ == inode@,
                match plan_key {
                    Some(plan_key) => request_map(self.requests@.take(i as int)).contains_key(
                        inode@,
                    ) && request_map(self.requests@.take(i as int))[inode@] == plan_key@,
                    None => !request_map(self.requests@.take(i as int)).contains_key(inode@),
                },
            decreases self.requests.len() - i,
        {
            assert(self.requests@.take(i + 1).drop_last() == self.requests@.take(i as int));
            if self.requests[i].inode == wanted {
                plan_key = Some(self.requests[i].plan_key.clone());
            }
            i += 1;
        }
        assert(self.requests@.take(i as int) == self.requests@);
        plan_key
    }

    /// Removes the request with an inode.
    pub fn remove_request(&mut self, inode: &str)
        requires
            old(self).well_formed(),
        ensures
            final(self).well_formed(),
            final(self)@ == without_request(old(self)@, inode@),
    {
        let gone = inode.to_owned();
        let mut kept: Vec<Request> = Vec::new();
        let mut i: usize = 0;
        let ghost rows = self.requests@;
        assert(request_map(kept@) =~= request_map(rows.take(0)).remove(inode@));
        while i < self.requests.len()
            invariant
                i <= self.requests.len(),
                gone@ == inode@,
                rows == self.requests@,
                distinct_inodes(rows),
                distinct_inodes(kept@),
                request_map(kept@) == request_map(rows.take(i as int)).remove(inode@),
            decreases self.requests.len() - i,
        {
            let ghost before = kept@;
            proof {
                assert(rows.take(i + 1).drop_last() == rows.take(i as int));
                lemma_distinct_prefix(rows, i + 1);
            }
            let request = &self.requests[i];
            if request.inode != gone {
                kept.push(
                    Request { inode: request.inode.clone(), plan_key: request.plan_key.clone() },
                );
                assert(kept@.drop_last() == before);
                assert(request_map(kept@) =~= request_map(rows.take(i + 1)).remove(inode@));
            } else {
                assert(request_map(kept@) =~= request_map(rows.take(i + 1)).remove(inode@));
            }
            i += 1;
        }
        assert(rows.take(i as int) == rows);
        self.requests = kept;
    }

    /// Puts a request in the place of the one with the same inode.
    fn put_request(&mut self, inode: &str, plan_key: &str)
        requires
            old(self).well_formed(),
        ensures
            final(self).well_formed(),
            final(self)@.requests == old(self)@.requests.insert(inode@, plan_key@),
            final(self)@.relations == old(self)@.relations,
    {
        self.remove_request(inode);
        let ghost before = self.requests@;
        self.requests.push(Request { inode: inode.to_owned(), plan_key: plan_key.to_owned() });
        assert(self.requests@.drop_last() == before);
        assert(self@.requests =~= old(self)@.requests.insert(inode@, plan_key@));
    }

    /// Puts a relation where it is missing.
    fn put_relation(&mut self, plan_key: &str, download_key: &str)
        requires
            old(self).well_formed(),
        ensures
            final(self).well_formed(),
            final(self)@.requests == old(self)@.requests,
            final(self)@.relations == old(self)@.relations.insert((plan_key@, download_key@)),
    {
        let plan = plan_key.to_owned();
        let download = download_key.to_owned();
        let ghost rows = self.relations@;
        let mut found = false;
        let mut i: usize = 0;
        while i < self.relations.len()
            invariant
                i <= self.relations.len(),
                rows == self.relations@,
                plan@ == plan_key@,
                download@ == download_key@,
                found == relation_set(rows.take(i as int)).contains((plan_key@, download_key@)),
            decreases self.relations.len() - i,
        {
            assert(rows.take(i + 1).drop_last() == rows.take(i as int));
            let relation = &self.relations[i];
            if relation.plan_key == plan && relation.download_key == download {
                found = true;
            }
            i += 1;
        }
        assert(rows.take(i as int) == rows);
        if found {
            assert(relation_set(rows).insert((plan_key@, download_key@)) =~= relation_set(rows));
        } else {
            self.relations.push(Relation { plan_key: plan, download_key: download });
            assert(self.relations@.drop_last() == rows);
        }
    }

    /// Adds a request for a plan that needs downloads.
    pub fn add_request(&mut self, inode: &str, plan_key: &str, downloads: &Vec<String>)
        requires
            old(self).well_formed(),
        ensures
            final(self).well_formed(),
            final(self)@ == with_request(old(self)@, inode@, plan_key@, texts(downloads@)),
    {
        let ghost keys = texts(downloads@);
        let ghost first = self@.relations;
        self.put_request(inode, plan_key);
        let mut i: usize = 0;
        assert(first =~= first.union(plan_relations(plan_key@, keys.take(0))));
        while i < downloads.len()
            invariant
                i <= downloads.len(),
                keys == texts(downloads@),
                self.well_formed(),
                self@.requests == old(self)@.requests.insert(inode@, plan_key@),
                self@.relations == first.union(plan_relations(plan_key@, keys.take(i as int))),
            decreases downloads.len() - i,
        {
            let ghost before = keys.take(i as int);
            let ghost after = keys.take(i + 1);
            self.put_relation(plan_key, downloads[i].as_str());
            proof {
                assert(after =~= before.push(keys[i as int]));
                assert forall|key: Seq<char>| after.contains(key) implies before.contains(key) || key
                    == keys[i as int] by {
                    let k = choose|k: int| 0 <= k < after.len() && after[k] == key;
                    if k < i {
                        assert(before[k] == key);
                    }
                }
                assert forall|key: Seq<char>| before.contains(key) || key
                    == keys[i as int] implies after.contains(key) by {
                    if key == keys[i as int] {
                        assert(after[i as int] == key);
                    } else {
                        let k = choose|k: int| 0 <= k < before.len() && before[k] == key;
                        assert(after[k] == key);
                    }
                }
                assert(self@.relations =~= first.union(plan_relations(plan_key@, after)));
            }
            i += 1;
        }
        assert(keys.take(i as int) == keys);
    }

    /// Adds a request for a plan, unless its inode stands for another plan.
    pub fn bind_request(&mut self, inode: &str, plan_key: &str, downloads: &Vec<String>) -> (result:
        Result<(), Error>)
        requires
            old(self).well_formed(),
        ensures
            final(self).well_formed(),
            match result {
                Ok(()) => binding_error(old(self)@, inode@, plan_key@) is None && final(self)@
                    == with_request(old(self)@, inode@, plan_key@, texts(downloads@)),
                Err(error) => binding_error(old(self)@, inode@, plan_key@) == Some(error@) && final(
                    self)@ == old(self)@,
            },
    {
        if let Some(existing) = self.request_plan(inode) {
            if existing != plan_key.to_owned() {
                return Err(Error::PlanKeyConflict);
            }
        }
        self.add_request(inode, plan_key, downloads);
        Ok(())
    }

    /// The inodes of all requests, each once.
    pub fn request_inodes(&self) -> (inodes: Vec<String>)
        requires
            self.well_formed(),
        ensures
            texts(inodes@).no_duplicates(),
            texts(inodes@).to_set() == self@.requests.dom(),
    {
        let ghost rows = self.requests@;
        let mut inodes: Vec<String> = Vec::new();
        let mut i: usize = 0;
        while i < self.requests.len()
            invariant
                i <= self.requests.len(),
                rows == self.requests@,
                distinct_inodes(rows),
                texts(inodes@).no_duplicates(),
                forall|inode: Seq<char>| #[trigger]
                    texts(inodes@).contains(inode) <==> request_map(
                        rows.take(i as int),
                    ).contains_key(inode),
            decreases self.requests.len() - i,
        {
            let ghost before = inodes@;
            proof {
                assert(rows.take(i + 1).drop_last() == rows.take(i as int));
                lemma_distinct_prefix(rows, i + 1);
            }
            inodes.push(self.requests[i].inode.clone());
            proof {
                lemma_texts_push(before, inodes@);
            }
            i += 1;
        }
        assert(rows.take(i as int) == rows);
        assert(texts(inodes@).to_set() =~= self@.requests.dom());
        inodes
    }

    /// The keys of the plans that a request wants, each once.
    pub fn live_plan_keys(&self) -> (keys: Vec<String>)
        requires
            self.well_formed(),
        ensures
            texts(keys@).no_duplicates(),
            texts(keys@).to_set() == live_plans(self@),
    {
        let ghost rows = self.requests@;
        let mut keys: Vec<String> = Vec::new();
        let mut i: usize = 0;
        assert(texts(keys@).to_set() =~= request_map(rows.take(0)).values());
        while i < self.requests.len()
            invariant
                i <= self.requests.len(),
                rows == self.requests@,
                distinct_inodes(rows),
                texts(keys@).no_duplicates(),
                texts(keys@).to_set() == request_map(rows.take(i as int)).values(),
            decreases self.requests.len() - i,
        {
            let ghost before = keys@;
            let request = &self.requests[i];
            proof {
                assert(rows.take(i + 1).drop_last() == rows.take(i as int));
                lemma_distinct_prefix(rows, i + 1);
                lemma_values_of_insert(
                    request_map(rows.take(i as int)),
                    request.inode@,
                    request.plan_key@,
                );
            }
            if !contains_text(keys.as_slice(), &request.plan_key) {
                keys.push(request.plan_key.clone());
                proof {
                    lemma_texts_push(before, keys@);
                    assert(texts(keys@).to_set() =~= texts(before).to_set().insert(
                        request.plan_key@,
                    ));
                }
            } else {
                assert(texts(keys@).to_set() =~= texts(keys@).to_set().insert(request.plan_key@));
            }
            i += 1;
        }
        assert(rows.take(i as int) == rows);
        keys
    }

    /// The keys of the downloads that a plan needs which a request wants, each
    /// once.
    pub fn live_download_keys(&self) -> (keys: Vec<String>)
        requires
            self.well_formed(),
        ensures
            texts(keys@).no_duplicates(),
            texts(keys@).to_set() == live_downloads(self@),
    {
        let plans = self.live_plan_keys();
        let ghost rows = self.relations@;
        let ghost live = live_plans(self@);
        let mut keys: Vec<String> = Vec::new();
        let mut i: usize = 0;
        while i < self.relations.len()
            invariant
                i <= self.relations.len(),
                rows == self.relations@,
                texts(plans@).to_set() == live,
                texts(keys@).no_duplicates(),
                forall|key: Seq<char>| #[trigger]
                    texts(keys@).contains(key) <==> exists|plan: Seq<char>|
                        live.contains(plan) && relation_set(rows.take(i as int)).contains(
                            (plan, key),
                        ),
            decreases self.relations.len() - i,
        {
            let ghost before = keys@;
            let ghost earlier = relation_set(rows.take(i as int));
            let ghost later = relation_set(rows.take(i + 1));
            let relation = &self.relations[i];
            let ghost pair = (relation.plan_key@, relation.download_key@);
            proof {
                assert(rows.take(i + 1).drop_last() == rows.take(i as int));
                assert(later == earlier.insert(pair));
            }
            let wanted = contains_text(plans.as_slice(), &relation.plan_key);
            assert(wanted == live.contains(pair.0)) by {
                assert(texts(plans@).to_set().contains(pair.0) == texts(plans@).contains(pair.0));
            }
            if wanted && !contains_text(keys.as_slice(), &relation.download_key) {
                keys.push(relation.download_key.clone());
                proof {
                    lemma_texts_push(before, keys@);
                }
            }
            proof {
                assert forall|key: Seq<char>| #[trigger]
                    texts(keys@).contains(key) <==> exists|plan: Seq<char>|
                        live.contains(plan) && later.contains((plan, key)) by {
                    if texts(keys@).contains(key) {
                        if texts(before).contains(key) {
                            let plan = choose|plan: Seq<char>|
                                live.contains(plan) && earlier.contains((plan, key));
                            assert(live.contains(plan) && later.contains((plan, key)));
                        } else {
                            assert(key == pair.1);
                            assert(live.contains(pair.0) && later.contains((pair.0, key)));
                        }
                    }
                    if exists|plan: Seq<char>| live.contains(plan) && later.contains((plan, key)) {
                        let plan = choose|plan: Seq<char>|
                            live.contains(plan) && later.contains((plan, key));
                        if earlier.contains((plan, key)) {
                            assert(texts(before).contains(key));
                        } else {
                            assert(wanted);
                        }
                    }
                }
            }
            i += 1;
        }
        proof {
            assert(rows.take(i as int) == rows);
            assert(texts(keys@).to_set() =~= live_downloads(self@));
        }
        keys
    }

    /// Removes the downloads of plans that no request wants.
    pub fn remove_unreferenced_download_relations(&mut self)
        requires
            old(self).well_formed(),
        ensures
            final(self).well_formed(),
            final(self)@ == pruned(old(self)@),
    {
        let plans = self.live_plan_keys();
        let ghost rows = self.relations@;
        let ghost live = live_plans(self@);
        let ghost wanted = |relation: (Seq<char>, Seq<char>)| live.contains(relation.0);
        let mut kept: Vec<Relation> = Vec::new();
        let mut i: usize = 0;
        assert(relation_set(kept@) =~= relation_set(rows.take(0)).filter(wanted));
        while i < self.relations.len()
            invariant
                i <= self.relations.len(),
                rows == self.relations@,
                texts(plans@).to_set() == live,
                wanted == (|relation: (Seq<char>, Seq<char>)| live.contains(relation.0)),
                relation_set(kept@) == relation_set(rows.take(i as int)).filter(wanted),
            decreases self.relations.len() - i,
        {
            let ghost before = kept@;
            let relation = &self.relations[i];
            let ghost pair = (relation.plan_key@, relation.download_key@);
            assert(rows.take(i + 1).drop_last() == rows.take(i as int));
            let keep = contains_text(plans.as_slice(), &relation.plan_key);
            assert(keep == live.contains(pair.0)) by {
                assert(texts(plans@).to_set().contains(pair.0) == texts(plans@).contains(pair.0));
            }
            if keep {
                kept.push(
                    Relation {
                        plan_key: relation.plan_key.clone(),
                        download_key: relation.download_key.clone(),
                    },
                );
                assert(kept@.drop_last() == before);
            }
            assert(relation_set(kept@) =~= relation_set(rows.take(i + 1)).filter(wanted));
            i += 1;
        }
        assert(rows.take(i as int) == rows);
        self.relations = kept;
    }
}

proof fn lemma_texts_push(before: Seq<String>, after: Seq<String>)
    requires
        after.len() == before.len() + 1,
        after.drop_last() =~= before,
        texts(before).no_duplicates(),
        !texts(before).contains(after.last()@),
    ensures
        texts(after) == texts(before).push(after.last()@),
        texts(after).no_duplicates(),
        forall|text: Seq<char>| #[trigger]
            texts(after).contains(text) <==> texts(before).contains(text) || text == after.last()@,
{
    assert(texts(after) =~= texts(before).push(after.last()@));
    assert forall|text: Seq<char>| #[trigger]
        texts(after).contains(text) <==> texts(before).contains(text) || text
            == after.last()@ by {
        if texts(after).contains(text) {
            let k = choose|k: int| 0 <= k < texts(after).len() && texts(after)[k] == text;
            if k < texts(before).len() {
                assert(texts(before)[k] == text);
            }
        }
        if texts(before).contains(text) {
            let k = choose|k: int| 0 <= k < texts(before).len() && texts(before)[k] == text;
            assert(texts(after)[k] == text);
        }
        if text == after.last()@ {
            assert(texts(after)[before.len() as int] == text);
        }
    }
}

/// Submitting the same request again changes nothing.
pub proof fn adding_again_changes_nothing(
    intents: IntentsView,
    inode: Seq<char>,
    plan_key: Seq<char>,
    downloads: Seq<Seq<char>>,
)
    ensures
        ({
            let once = with_request(intents, inode, plan_key, downloads);
            &&& binding_error(once, inode, plan_key) is None
            &&& with_request(once, inode, plan_key, downloads) == once
        }),
{
    let once = with_request(intents, inode, plan_key, downloads);
    assert(with_request(once, inode, plan_key, downloads) =~= once);
}

/// What a request wants is live, and so is all that was live before, unless the
/// inode stood for another plan.
pub proof fn added_request_is_live(
    intents: IntentsView,
    inode: Seq<char>,
    plan_key: Seq<char>,
    downloads: Seq<Seq<char>>,
)
    requires
        binding_error(intents, inode, plan_key) is None,
    ensures
        ({
            let more = with_request(intents, inode, plan_key, downloads);
            &&& live_plans(more) == live_plans(intents).insert(plan_key)
            &&& downloads.to_set().subset_of(live_downloads(more))
            &&& live_downloads(intents).subset_of(live_downloads(more))
        }),
{
    let more = with_request(intents, inode, plan_key, downloads);
    assert(more.requests.dom().contains(inode) && more.requests[inode] == plan_key);
    if intents.requests.contains_key(inode) {
        assert(more.requests =~= intents.requests);
        assert(live_plans(more) =~= live_plans(intents).insert(plan_key));
    } else {
        lemma_values_of_insert(intents.requests, inode, plan_key);
    }
    assert(live_plans(more).contains(plan_key));
    assert forall|key: Seq<char>| downloads.to_set().contains(key) implies live_downloads(
        more,
    ).contains(key) by {
        assert(live_plans(more).contains(plan_key) && more.relations.contains((plan_key, key)));
    }
    assert forall|key: Seq<char>| live_downloads(intents).contains(key) implies live_downloads(
        more,
    ).contains(key) by {
        let plan = choose|plan: Seq<char>|
            live_plans(intents).contains(plan) && intents.relations.contains((plan, key));
        assert(live_plans(more).contains(plan) && more.relations.contains((plan, key)));
    }
}

/// Removing a request that was new leaves the requests as they were, and with them
/// the plans that are live.
pub proof fn removing_undoes_adding(
    intents: IntentsView,
    inode: Seq<char>,
    plan_key: Seq<char>,
    downloads: Seq<Seq<char>>,
)
    requires
        !intents.requests.contains_key(inode),
    ensures
        ({
            let back = without_request(with_request(intents, inode, plan_key, downloads), inode);
            &&& back.requests == intents.requests
            &&& live_plans(back) == live_plans(intents)
        }),
{
    let back = without_request(with_request(intents, inode, plan_key, downloads), inode);
    assert(back.requests =~= intents.requests);
}

/// A plan and its downloads stay live when a request for it is removed while
/// another one still wants it.
pub proof fn shared_plan_stays_live(intents: IntentsView, gone: Seq<char>, other: Seq<char>)
    requires
        intents.requests.contains_key(gone),
        intents.requests.contains_key(other),
        gone != other,
        intents.requests[gone] == intents.requests[other],
    ensures
        live_plans(without_request(intents, gone)) == live_plans(intents),
        live_downloads(without_request(intents, gone)) == live_downloads(intents),
{
    let less = without_request(intents, gone);
    assert forall|plan: Seq<char>| live_plans(intents).contains(plan) implies live_plans(
        less,
    ).contains(plan) by {
        let inode = choose|inode: Seq<char>| #[trigger]
            intents.requests.dom().contains(inode) && intents.requests[inode] == plan;
        let witness = if inode == gone {
            other
        } else {
            inode
        };
        assert(less.requests.dom().contains(witness) && less.requests[witness] == plan);
    }
    assert forall|plan: Seq<char>| live_plans(less).contains(plan) implies live_plans(
        intents,
    ).contains(plan) by {
        let inode = choose|inode: Seq<char>| #[trigger]
            less.requests.dom().contains(inode) && less.requests[inode] == plan;
        assert(intents.requests.dom().contains(inode) && intents.requests[inode] == plan);
    }
    assert(live_plans(less) =~= live_plans(intents));
    assert(live_downloads(less) =~= live_downloads(intents));
}

/// A plan is no longer live once the last request for it is removed.
pub proof fn plan_dies_with_its_last_request(intents: IntentsView, inode: Seq<char>)
    requires
        intents.requests.contains_key(inode),
        forall|other: Seq<char>|
            intents.requests.contains_key(other) && other != inode ==> intents.requests[other]
                != intents.requests[inode],
    ensures
        live_plans(without_request(intents, inode)) == live_plans(intents).remove(
            intents.requests[inode],
        ),
{
    let less = without_request(intents, inode);
    assert(intents.requests =~= less.requests.insert(inode, intents.requests[inode]));
    lemma_values_of_insert(less.requests, inode, intents.requests[inode]);
    assert(!live_plans(less).contains(intents.requests[inode]));
    assert(live_plans(less) =~= live_plans(intents).remove(intents.requests[inode]));
}

/// Removing the downloads of plans that no request wants changes nothing that is
/// live, and doing it again changes nothing at all.
pub proof fn pruning_keeps_what_is_live(intents: IntentsView)
    ensures
        live_plans(pruned(intents)) == live_plans(intents),
        live_downloads(pruned(intents)) == live_downloads(intents),
        pruned(pruned(intents)) == pruned(intents),
{
    let less = pruned(intents);
    assert forall|key: Seq<char>| live_downloads(intents).contains(key) implies live_downloads(
        less,
    ).contains(key) by {
        let plan = choose|plan: Seq<char>|
            live_plans(intents).contains(plan) && intents.relations.contains((plan, key));
        assert(live_plans(less).contains(plan) && less.relations.contains((plan, key)));
    }
    assert forall|key: Seq<char>| live_downloads(less).contains(key) implies live_downloads(
        intents,
    ).contains(key) by {
        let plan = choose|plan: Seq<char>|
            live_plans(less).contains(plan) && less.relations.contains((plan, key));
        assert(live_plans(intents).contains(plan) && intents.relations.contains((plan, key)));
    }
    assert(live_downloads(less) =~= live_downloads(intents));
    assert(pruned(less) =~= less);
}

/// A plan is live exactly where a request wants it, and a download is where such a plan
/// needs it.
pub proof fn live_is_what_requests_want(intents: IntentsView)
    ensures
        forall|plan: Seq<char>| #[trigger]
            live_plans(intents).contains(plan) <==> exists|inode: Seq<char>| #[trigger]
                intents.requests.contains_key(inode) && intents.requests[inode] == plan,
        forall|download: Seq<char>| #[trigger]
            live_downloads(intents).contains(download) <==> exists|inode: Seq<char>| #[trigger]
                intents.requests.contains_key(inode) && intents.relations.contains(
                    (intents.requests[inode], download),
                ),
{
    assert forall|plan: Seq<char>| #[trigger]
        live_plans(intents).contains(plan) <==> exists|inode: Seq<char>| #[trigger]
            intents.requests.contains_key(inode) && intents.requests[inode] == plan by {
        if live_plans(intents).contains(plan) {
            let inode = choose|inode: Seq<char>| #[trigger]
                intents.requests.dom().contains(inode) && intents.requests[inode] == plan;
            assert(intents.requests.contains_key(inode));
        }
        if exists|inode: Seq<char>| #[trigger]
            intents.requests.contains_key(inode) && intents.requests[inode] == plan {
            let inode = choose|inode: Seq<char>| #[trigger]
                intents.requests.contains_key(inode) && intents.requests[inode] == plan;
            assert(intents.requests.dom().contains(inode));
        }
    }
    assert forall|download: Seq<char>| #[trigger]
        live_downloads(intents).contains(download) <==> exists|inode: Seq<char>| #[trigger]
            intents.requests.contains_key(inode) && intents.relations.contains(
                (intents.requests[inode], download),
            ) by {
        if live_downloads(intents).contains(download) {
            let plan = choose|plan: Seq<char>|
                live_plans(intents).contains(plan) && intents.relations.contains((plan, download));
            let inode = choose|inode: Seq<char>| #[trigger]
                intents.requests.contains_key(inode) && intents.requests[inode] == plan;
            assert(intents.relations.contains((intents.requests[inode], download)));
        }
        if exists|inode: Seq<char>| #[trigger]
            intents.requests.contains_key(inode) && intents.relations.contains(
                (intents.requests[inode], download),
            ) {
            let inode = choose|inode: Seq<char>| #[trigger]
                intents.requests.contains_key(inode) && intents.relations.contains(
                    (intents.requests[inode], download),
                );
            assert(live_plans(intents).contains(intents.requests[inode]));
        }
    }
}

/// A request that is added binds its inode to its plan, and its plan to all downloads
/// that it needs; no other request and no other relation changes. It is refused exactly
/// where its inode is bound to another plan.
pub proof fn added_request_binds_inode_and_downloads(
    intents: IntentsView,
    inode: Seq<char>,
    plan_key: Seq<char>,
    downloads: Seq<Seq<char>>,
)
    ensures
        ({
            let more = with_request(intents, inode, plan_key, downloads);
            &&& more.requests.contains_key(inode)
            &&& more.requests[inode] == plan_key
            &&& forall|other: Seq<char>|
                other != inode ==> (#[trigger] more.requests.contains_key(other)
                    <==> intents.requests.contains_key(other)) && (intents.requests.contains_key(
                    other,
                ) ==> more.requests[other] == intents.requests[other])
            &&& forall|plan: Seq<char>, download: Seq<char>| #[trigger]
                more.relations.contains((plan, download)) <==> intents.relations.contains(
                    (plan, download),
                ) || plan == plan_key && downloads.contains(download)
        }),
        binding_error(intents, inode, plan_key) == (if intents.requests.contains_key(inode)
            && intents.requests[inode] != plan_key {
            Some(ErrorView::PlanKeyConflict)
        } else {
            None
        }),
{
}

/// Removing a request ends that one, if it is there, and no other, and changes no
/// relation; pruning ends the relations of plans that no request wants, and no others,
/// and changes no request.
pub proof fn removal_ends_only_what_it_names(intents: IntentsView, inode: Seq<char>)
    ensures
        ({
            let less = without_request(intents, inode);
            &&& less.relations == intents.relations
            &&& !less.requests.contains_key(inode)
            &&& forall|other: Seq<char>|
                other != inode ==> (#[trigger] less.requests.contains_key(other)
                    <==> intents.requests.contains_key(other)) && (intents.requests.contains_key(
                    other,
                ) ==> less.requests[other] == intents.requests[other])
        }),
        ({
            let fewer = pruned(intents);
            &&& fewer.requests == intents.requests
            &&& forall|plan: Seq<char>, download: Seq<char>| #[trigger]
                fewer.relations.contains((plan, download)) <==> intents.relations.contains(
                    (plan, download),
                ) && exists|wanting: Seq<char>| #[trigger]
                    intents.requests.contains_key(wanting) && intents.requests[wanting] == plan
        }),
{
    live_is_what_requests_want(intents);
}

proof fn lemma_rows_of_requests(requests: Seq<Request>)
    ensures
        forall|inode: Seq<char>| #[trigger]
            request_map(requests).contains_key(inode) <==> exists|i: int|
                0 <= i < requests.len() && (#[trigger] requests[i]).inode@ == inode,
        forall|i: int|
            0 <= i < requests.len() && (forall|j: int|
                i < j < requests.len() ==> (#[trigger] requests[j]).inode@ != requests[i].inode@)
                ==> request_map(requests)[(#[trigger] requests[i]).inode@] == requests[i].plan_key@,
    decreases requests.len(),
{
    if requests.len() > 0 {
        let fewer = requests.drop_last();
        let last = requests.len() - 1;
        lemma_rows_of_requests(fewer);
        assert forall|inode: Seq<char>| #[trigger]
            request_map(requests).contains_key(inode) <==> exists|i: int|
                0 <= i < requests.len() && (#[trigger] requests[i]).inode@ == inode by {
            if request_map(fewer).contains_key(inode) {
                let i = choose|i: int| 0 <= i < fewer.len() && (#[trigger] fewer[i]).inode@ == inode;
                assert(requests[i].inode@ == inode);
            }
            if request_map(requests).contains_key(inode) && !request_map(fewer).contains_key(
                inode,
            ) {
                assert(requests[last].inode@ == inode);
            }
            if exists|i: int| 0 <= i < requests.len() && (#[trigger] requests[i]).inode@ == inode {
                let i = choose|i: int|
                    0 <= i < requests.len() && (#[trigger] requests[i]).inode@ == inode;
                if i < last {
                    assert(fewer[i].inode@ == inode);
                }
            }
        }
        assert forall|i: int|
            0 <= i < requests.len() && (forall|j: int|
                i < j < requests.len() ==> (#[trigger] requests[j]).inode@
                    != requests[i].inode@) implies request_map(
            requests,
        )[(#[trigger] requests[i]).inode@] == requests[i].plan_key@ by {
            if i < last {
                assert(requests[last].inode@ != requests[i].inode@);
                assert(fewer[i] == requests[i]);
                assert forall|j: int| i < j < fewer.len() implies (#[trigger] fewer[j]).inode@
                    != fewer[i].inode@ by {
                    assert(requests[j].inode@ != requests[i].inode@);
                }
            }
        }
    }
}

proof fn lemma_rows_of_relations(relations: Seq<Relation>)
    ensures
        forall|plan: Seq<char>, download: Seq<char>| #[trigger]
            relation_set(relations).contains((plan, download)) <==> exists|i: int|
                0 <= i < relations.len() && (#[trigger] relations[i]).plan_key@ == plan
                    && relations[i].download_key@ == download,
    decreases relations.len(),
{
    if relations.len() > 0 {
        let fewer = relations.drop_last();
        let last = relations.len() - 1;
        lemma_rows_of_relations(fewer);
        assert forall|plan: Seq<char>, download: Seq<char>| #[trigger]
            relation_set(relations).contains((plan, download)) <==> exists|i: int|
                0 <= i < relations.len() && (#[trigger] relations[i]).plan_key@ == plan
                    && relations[i].download_key@ == download by {
            if relation_set(fewer).contains((plan, download)) {
                let i = choose|i: int|
                    0 <= i < fewer.len() && (#[trigger] fewer[i]).plan_key@ == plan
                        && fewer[i].download_key@ == download;
                assert(relations[i] == fewer[i]);
            }
            if relation_set(relations).contains((plan, download)) && !relation_set(
                fewer,
            ).contains((plan, download)) {
                assert(relations[last].plan_key@ == plan);
            }
            if exists|i: int|
                0 <= i < relations.len() && (#[trigger] relations[i]).plan_key@ == plan
                    && relations[i].download_key@ == download {
                let i = choose|i: int|
                    0 <= i < relations.len() && (#[trigger] relations[i]).plan_key@ == plan
                        && relations[i].download_key@ == download;
                if i < last {
                    assert(fewer[i].plan_key@ == plan);
                }
            }
        }
    }
}

/// What rows say together: an inode is bound where a row has it, to the plan of the last
/// such row; and a plan needs a download where a row says so.
pub proof fn rows_say_what_is_wanted(requests: Seq<Request>, relations: Seq<Relation>)
    ensures
        forall|inode: Seq<char>| #[trigger]
            request_map(requests).contains_key(inode) <==> exists|i: int|
                0 <= i < requests.len() && (#[trigger] requests[i]).inode@ == inode,
        forall|i: int|
            0 <= i < requests.len() && (forall|j: int|
                i < j < requests.len() ==> (#[trigger] requests[j]).inode@ != requests[i].inode@)
                ==> request_map(requests)[(#[trigger] requests[i]).inode@] == requests[i].plan_key@,
        forall|plan: Seq<char>, download: Seq<char>| #[trigger]
            relation_set(relations).contains((plan, download)) <==> exists|i: int|
                0 <= i < relations.len() && (#[trigger] relations[i]).plan_key@ == plan
                    && relations[i].download_key@ == download,
{
    lemma_rows_of_requests(requests);
    lemma_rows_of_relations(relations);
}

} // verus!
