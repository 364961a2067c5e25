use site_policy::details::Details;
use site_policy::outcome::{DeleteOutcome, PutOutcome};
use site_policy::store::Store;

fn details(username: &str, length: Option<i32>, forbidden: &[&str]) -> Details {
    Details {
        username: username.to_string(),
        length,
        forbidden_characters: forbidden.iter().map(|s| s.to_string()).collect(),
    }
}

#[test]
fn fresh_store_has_no_sites() {
    let store = Store::new();
    assert_eq!(store.list_sites(), Vec::<String>::new());
    let site = "example.com".to_string();
    assert_eq!(store.details_for_site(&site), Vec::<Details>::new());
}

#[test]
fn upsert_then_read_yields_the_record() {
    let mut store = Store::new();
    let site = "example.com".to_string();
    let d = details("alice", Some(12), &["<", ">"]);
    assert_eq!(store.upsert(&site, &d), PutOutcome::Created);
    let got = store.details_for_site(&site);
    assert_eq!(got, vec![d]);
}

#[test]
fn upsert_is_idempotent_on_content() {
    let mut store = Store::new();
    let site = "example.com".to_string();
    let d = details("alice", None, &["!", "!", "?"]);
    assert_eq!(store.upsert(&site, &d), PutOutcome::Created);
    let first = store.details_for_site(&site);
    assert_eq!(store.upsert(&site, &d), PutOutcome::Replaced);
    let second = store.details_for_site(&site);
    assert_eq!(first, second);
    assert_eq!(second, vec![d]);
}

#[test]
fn upsert_overwrites_without_leftovers() {
    let mut store = Store::new();
    let site = "example.com".to_string();
    let d1 = details("alice", Some(8), &["<", ">", "&"]);
    let d2 = details("bob", None, &["'"]);
    store.upsert(&site, &d1);
    assert_eq!(store.upsert(&site, &d2), PutOutcome::Replaced);
    assert_eq!(store.details_for_site(&site), vec![d2]);
}

#[test]
fn upsert_keeps_other_sites_untouched() {
    let mut store = Store::new();
    let one = "one.example".to_string();
    let two = "two.example".to_string();
    let d1 = details("alice", Some(10), &["a"]);
    let d2 = details("bob", None, &["b", "c"]);
    store.upsert(&one, &d1);
    store.upsert(&two, &d2);
    assert_eq!(store.details_for_site(&one), vec![d1]);
    assert_eq!(store.details_for_site(&two), vec![d2]);
}

#[test]
fn delete_removes_the_site() {
    let mut store = Store::new();
    let site = "example.com".to_string();
    let d = details("alice", Some(12), &["<"]);
    store.upsert(&site, &d);
    assert_eq!(store.delete(&site), DeleteOutcome::Deleted);
    assert_eq!(store.details_for_site(&site), Vec::<Details>::new());
    assert_eq!(store.delete(&site), DeleteOutcome::NotFound);
}

#[test]
fn delete_of_unknown_site_is_not_found() {
    let mut store = Store::new();
    let site = "nowhere.example".to_string();
    assert_eq!(store.delete(&site), DeleteOutcome::NotFound);
}

#[test]
fn list_sites_names_every_site_once() {
    let mut store = Store::new();
    let one = "one.example".to_string();
    let two = "two.example".to_string();
    store.upsert(&one, &details("alice", None, &[]));
    store.upsert(&two, &details("bob", Some(1), &["x"]));
    store.upsert(&one, &details("carol", None, &[]));
    let mut sites = store.list_sites();
    sites.sort();
    assert_eq!(sites, vec!["one.example".to_string(), "two.example".to_string()]);
}

#[test]
fn duplicate_forbidden_characters_are_kept() {
    let mut store = Store::new();
    let site = "example.com".to_string();
    let d = details("alice", None, &["!", "!"]);
    store.upsert(&site, &d);
    let got = store.details_for_site(&site);
    assert_eq!(got[0].forbidden_characters, vec!["!".to_string(), "!".to_string()]);
}

#[test]
fn full_resource_lifecycle() {
    // The boundary's view of one resource: create, read, replace, read,
    // delete, delete again.
    let mut store = Store::new();
    let site = "example.com".to_string();
    let created = details("alice", Some(12), &["<", ">"]);
    assert_eq!(store.upsert(&site, &created), PutOutcome::Created);
    assert_eq!(store.details_for_site(&site), vec![created]);
    let replaced = details("alice", None, &[]);
    assert_eq!(store.upsert(&site, &replaced), PutOutcome::Replaced);
    assert_eq!(store.details_for_site(&site), vec![replaced]);
    assert_eq!(store.delete(&site), DeleteOutcome::Deleted);
    assert_eq!(store.delete(&site), DeleteOutcome::NotFound);
}

#[test]
fn index_greets() {
    assert_eq!(site_policy::index(), "Hello, world!");
}
