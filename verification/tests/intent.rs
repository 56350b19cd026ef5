use imos::intent::{Intents, Relation, Request};

fn keys(list: &[&str]) -> Vec<String> {
    list.iter().map(|key| (*key).to_owned()).collect()
}

fn sorted(mut list: Vec<String>) -> Vec<String> {
    list.sort();
    list
}

#[test]
fn requests_are_added_and_found() {
    let mut intents = Intents::new();
    assert_eq!(intents.request_plan("1"), None);
    intents.add_request("1", "plan", &keys(&["a", "b", "a"]));
    assert_eq!(intents.request_plan("1"), Some("plan".to_owned()));
    assert_eq!(intents.request_inodes(), keys(&["1"]));
    assert_eq!(intents.live_plan_keys(), keys(&["plan"]));
    assert_eq!(sorted(intents.live_download_keys()), keys(&["a", "b"]));
    assert_eq!(intents.relations().len(), 2);
}

#[test]
fn adding_the_same_request_again_changes_nothing() {
    let mut intents = Intents::new();
    intents.add_request("1", "plan", &keys(&["a"]));
    intents.add_request("1", "plan", &keys(&["a"]));
    assert_eq!(intents.requests().len(), 1);
    assert_eq!(intents.relations().len(), 1);
}

#[test]
fn an_inode_stands_for_one_plan() {
    let mut intents = Intents::new();
    assert!(intents.bind_request("1", "plan", &keys(&["a"])).is_ok());
    assert!(intents.bind_request("1", "plan", &keys(&["a"])).is_ok());
    let error = intents.bind_request("1", "other", &keys(&["b"])).unwrap_err();
    assert_eq!(error.message(), "request inode is already bound to another plan key");
    assert_eq!(intents.request_plan("1"), Some("plan".to_owned()));
    assert_eq!(intents.live_download_keys(), keys(&["a"]));
}

#[test]
fn removing_undoes_adding_a_new_request() {
    let mut intents = Intents::new();
    intents.add_request("1", "plan", &keys(&["a"]));
    intents.add_request("2", "other", &keys(&["b"]));
    intents.remove_request("2");
    assert_eq!(intents.request_plan("2"), None);
    assert_eq!(intents.live_plan_keys(), keys(&["plan"]));
    intents.remove_request("9");
    assert_eq!(intents.request_inodes(), keys(&["1"]));
}

#[test]
fn a_shared_plan_is_live_until_its_last_request_goes() {
    let mut intents = Intents::new();
    intents.add_request("1", "shared", &keys(&["a"]));
    intents.add_request("2", "shared", &keys(&["a"]));
    intents.remove_request("1");
    assert_eq!(intents.live_plan_keys(), keys(&["shared"]));
    assert_eq!(intents.live_download_keys(), keys(&["a"]));
    intents.remove_request("2");
    assert!(intents.live_plan_keys().is_empty());
    assert!(intents.live_download_keys().is_empty());
}

#[test]
fn downloads_of_unwanted_plans_are_forgotten() {
    let mut intents = Intents::new();
    intents.add_request("1", "kept", &keys(&["a", "b"]));
    intents.add_request("2", "gone", &keys(&["b", "c"]));
    intents.remove_request("2");
    assert_eq!(sorted(intents.live_download_keys()), keys(&["a", "b"]));
    assert_eq!(intents.relations().len(), 4);
    intents.remove_unreferenced_download_relations();
    assert_eq!(intents.relations().len(), 2);
    assert_eq!(sorted(intents.live_download_keys()), keys(&["a", "b"]));
    intents.remove_unreferenced_download_relations();
    assert_eq!(intents.relations().len(), 2);
}

#[test]
fn intents_are_loaded() {
    let request = |inode: &str, plan_key: &str| Request {
        inode: inode.to_owned(),
        plan_key: plan_key.to_owned(),
    };
    let relation = |plan_key: &str, download_key: &str| Relation {
        plan_key: plan_key.to_owned(),
        download_key: download_key.to_owned(),
    };
    let intents = Intents::load(
        &vec![request("1", "old"), request("2", "p"), request("1", "new")],
        &vec![relation("p", "a"), relation("p", "a"), relation("dead", "z")],
    );
    assert_eq!(intents.request_plan("1"), Some("new".to_owned()));
    assert_eq!(sorted(intents.request_inodes()), keys(&["1", "2"]));
    assert_eq!(sorted(intents.live_plan_keys()), keys(&["new", "p"]));
    assert_eq!(intents.live_download_keys(), keys(&["a"]));
    assert_eq!(intents.relations().len(), 2);
}
