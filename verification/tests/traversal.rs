use notion_fetch::client::{FetchError, TableClient};
use notion_fetch::doc::{Block, Document};
use notion_fetch::store::{Store, StoreError};

fn doc(title: &str, blocks: Vec<Block>) -> Document {
    Document::new(title.to_string(), blocks)
}

fn page(children: Vec<u64>) -> Document {
    let blocks: Vec<Block> = children.into_iter().map(Block::ChildPage).collect();
    doc("page", blocks)
}

#[test]
fn get_on_empty_store_finds_nothing() {
    let store: Store<TableClient> = Store::new(TableClient::new());
    assert!(store.get(1).is_none());
}

#[test]
fn get_or_fetch_returns_the_remote_document() {
    let mut client = TableClient::new();
    client.put(1, doc("one", vec![Block::Paragraph]));
    let mut store = Store::new(client);
    let got = store.get_or_fetch(1).unwrap().clone();
    assert_eq!(got, doc("one", vec![Block::Paragraph]));
    assert!(store.get(1).is_some());
}

#[test]
fn cache_reuse_issues_at_most_one_remote_call() {
    let mut client = TableClient::new();
    client.put(7, doc("seven", vec![Block::Heading]));
    let mut store = Store::new(client);
    let first = store.get_or_fetch(7).unwrap().clone();
    let second = store.get_or_fetch(7).unwrap().clone();
    assert_eq!(first, second);
    assert_eq!(store.client_ref().calls().clone(), vec![7]);
}

#[test]
fn failed_fetch_is_not_cached_and_is_retried() {
    let mut store = Store::new(TableClient::new());
    let e1 = store.get_or_fetch(9).unwrap_err();
    assert_eq!(e1, StoreError::Fetch(FetchError::NotFound));
    assert!(store.get(9).is_none());
    let e2 = store.get_or_fetch(9).unwrap_err();
    assert_eq!(e2, StoreError::Fetch(FetchError::NotFound));
    assert_eq!(store.client_ref().calls().clone(), vec![9, 9]);
}

#[test]
fn put_replaces_the_document_under_an_identifier() {
    let mut client = TableClient::new();
    client.put(1, doc("old", vec![]));
    client.put(1, doc("new", vec![]));
    let mut store = Store::new(client);
    assert_eq!(store.get_or_fetch(1).unwrap().title, "new".to_string());
}

#[test]
fn no_duplicate_fetch_on_diamonds_and_cycles() {
    let mut client = TableClient::new();
    client.put(1, page(vec![2, 3]));
    client.put(2, page(vec![4]));
    client.put(3, page(vec![4]));
    client.put(4, page(vec![1]));
    let mut store = Store::new(client);
    store.fetch_all(&vec![1]).unwrap();
    let calls = store.client_ref().calls().clone();
    assert_eq!(calls, vec![1, 2, 3, 4]);
}

#[test]
fn closure_completeness_on_an_acyclic_graph() {
    let mut client = TableClient::new();
    client.put(1, page(vec![2, 3]));
    client.put(2, page(vec![4]));
    client.put(3, page(vec![]));
    client.put(4, page(vec![]));
    let mut store = Store::new(client);
    store.fetch_all(&vec![1]).unwrap();
    assert!(store.get(1).is_some());
    assert!(store.get(2).is_some());
    assert!(store.get(3).is_some());
    assert!(store.get(4).is_some());
    assert!(store.get(5).is_none());
    assert_eq!(store.client_ref().calls().len(), 4);
}

#[test]
fn cycle_safety_terminates_with_both_pages() {
    let mut client = TableClient::new();
    client.put(1, page(vec![2]));
    client.put(2, page(vec![1]));
    let mut store = Store::new(client);
    store.fetch_all(&vec![1]).unwrap();
    assert!(store.get(1).is_some());
    assert!(store.get(2).is_some());
    assert!(store.get(3).is_none());
    assert_eq!(store.client_ref().calls().clone(), vec![1, 2]);
}

#[test]
fn fail_fast_skips_identifiers_still_queued() {
    let mut client = TableClient::new();
    client.put(1, page(vec![2, 3]));
    client.put(2, page(vec![4]));
    client.put(4, page(vec![]));
    // 3 is absent, so its fetch fails while 4 is still in the queue.
    let mut store = Store::new(client);
    let err = store.fetch_all(&vec![1]).unwrap_err();
    assert_eq!(err, StoreError::Fetch(FetchError::NotFound));
    assert_eq!(store.client_ref().calls().clone(), vec![1, 2, 3]);
}

#[test]
fn partial_state_survives_a_failure() {
    let mut client = TableClient::new();
    client.put(1, page(vec![2, 3]));
    client.put(2, page(vec![]));
    let mut store = Store::new(client);
    assert!(store.fetch_all(&vec![1]).is_err());
    assert!(store.get(1).is_some());
    assert!(store.get(2).is_some());
    assert!(store.get(3).is_none());
}

#[test]
fn breadth_first_order_fetches_shallow_pages_first() {
    let mut client = TableClient::new();
    client.put(1, page(vec![2, 3]));
    client.put(2, page(vec![4]));
    client.put(3, page(vec![]));
    client.put(4, page(vec![]));
    let mut store = Store::new(client);
    store.fetch_all(&vec![1]).unwrap();
    assert_eq!(store.client_ref().calls().clone(), vec![1, 2, 3, 4]);
}

#[test]
fn seeds_are_deduplicated() {
    let mut client = TableClient::new();
    client.put(1, page(vec![]));
    let mut store = Store::new(client);
    store.fetch_all(&vec![1, 1, 1]).unwrap();
    assert_eq!(store.client_ref().calls().clone(), vec![1]);
}

#[test]
fn empty_seed_set_fetches_nothing() {
    let mut store = Store::new(TableClient::new());
    store.fetch_all(&vec![]).unwrap();
    assert!(store.client_ref().calls().is_empty());
}

#[test]
fn already_cached_seeds_are_not_fetched_again() {
    let mut client = TableClient::new();
    client.put(1, page(vec![2]));
    client.put(2, page(vec![]));
    let mut store = Store::new(client);
    store.get_or_fetch(1).unwrap();
    store.fetch_all(&vec![1]).unwrap();
    assert_eq!(store.client_ref().calls().clone(), vec![1, 2]);
}

#[test]
fn child_ids_deduplicates_within_a_document() {
    let d = doc(
        "links",
        vec![
            Block::ChildPage(2),
            Block::Paragraph,
            Block::LinkToPage(2),
            Block::ChildPage(3),
            Block::Heading,
            Block::LinkToPage(3),
            Block::ListItem,
            Block::Other,
        ],
    );
    assert_eq!(d.child_ids(), vec![2, 3]);
}

#[test]
fn child_ids_of_a_leaf_document_is_empty() {
    let d = doc("leaf", vec![Block::Paragraph, Block::Other]);
    assert!(d.child_ids().is_empty());
}

#[test]
fn duplicate_copies_a_document_exactly() {
    let d = doc("copy me", vec![Block::ChildPage(5), Block::Heading]);
    assert_eq!(d.duplicate(), d);
}

#[test]
fn each_error_kind_is_propagated_verbatim() {
    for kind in [
        FetchError::Network,
        FetchError::NotFound,
        FetchError::Unauthorized,
        FetchError::RateLimited,
    ] {
        let mut client = TableClient::new();
        client.put(1, page(vec![2]));
        client.put(2, page(vec![]));
        client.deny(2, kind);
        let mut store = Store::new(client);
        assert_eq!(store.fetch_all(&vec![1]).unwrap_err(), StoreError::Fetch(kind));
    }
}

#[test]
fn a_denied_document_fails_even_though_the_remote_holds_it() {
    let mut client = TableClient::new();
    client.put(1, page(vec![]));
    client.deny(1, FetchError::Unauthorized);
    let mut store = Store::new(client);
    let err = store.get_or_fetch(1).unwrap_err();
    assert_eq!(err, StoreError::Fetch(FetchError::Unauthorized));
    assert!(store.get(1).is_none());
}
