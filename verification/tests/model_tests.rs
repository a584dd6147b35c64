//! Unit runs of the data model: requests, mutations, queries, fresh data,
//! text helpers, ordering, the local view and the in-memory storage.

use data_container::change::{ChangeResponse, ChangeResult, ChangeType, DataChange};
use data_container::communicator::data::Data;
use data_container::container::storage::{handle_change, handle_query, MapStorage, Storage};
use data_container::order::{record_lt, SortBy};
use data_container::query::{FreshData, Predicate, QueryResponse, QueryType};
use data_container::text::{str_contains, str_lt};
use data_container::Record;

fn rec(key: u64, val: &str) -> Record {
    Record::new(key, String::from(val))
}

#[test]
fn change_type_emptiness() {
    assert!(ChangeType::InsertMany(vec![]).is_empty());
    assert!(ChangeType::UpdateMany(vec![]).is_empty());
    assert!(ChangeType::DeleteMany(vec![]).is_empty());
    assert!(!ChangeType::Insert(rec(1, "x")).is_empty());
    assert!(!ChangeType::InsertMany(vec![rec(1, "x")]).is_empty());
    assert!(!ChangeType::Delete(1).is_empty());
}

#[test]
fn data_change_accessors() {
    let ins = DataChange::Insert(vec![rec(1, "a"), rec(2, "b")]);
    assert_eq!(ins.value_keys(), vec![1, 2]);
    assert_eq!(ins.len(), 2);
    assert!(ins.is_insert());
    assert!(!ins.is_update());
    assert!(!ins.is_delete());
    assert!(!ins.is_empty());

    let del = DataChange::Delete(vec![9, 8]);
    assert_eq!(del.value_keys(), vec![9, 8]);
    assert!(del.is_delete());

    assert!(DataChange::empty_insert().is_empty());
    assert!(DataChange::empty_update().is_update());
    assert!(DataChange::empty_delete().is_delete());

    let from = DataChange::from_type(ChangeType::Update(rec(4, "u")));
    assert!(from.is_update());
    assert_eq!(from.value_keys(), vec![4]);
}

#[test]
fn query_type_apply_matches_rows() {
    let row = rec(3, "Hello World");
    assert!(QueryType::All.apply(&row));
    assert!(QueryType::GetById(3).apply(&row));
    assert!(!QueryType::GetById(4).apply(&row));
    assert!(QueryType::GetByIds(vec![1, 3]).apply(&row));
    assert!(!QueryType::GetByIds(vec![1, 2]).apply(&row));
    assert!(QueryType::predicate(Predicate::ValContains(String::from("Hello"))).apply(&row));
    assert!(!QueryType::predicate(Predicate::ValContains(String::from("Howdy"))).apply(&row));
    assert!(QueryType::predicate(Predicate::ValEquals(String::from("Hello World"))).apply(&row));
    assert!(QueryType::predicate(Predicate::KeyAtLeast(3)).apply(&row));
    assert!(!QueryType::predicate(Predicate::KeyAtLeast(4)).apply(&row));
}

#[test]
fn fresh_data_dedups_by_key_keeping_last() {
    let fresh = FreshData::from_vec(vec![rec(1, "old"), rec(2, "two"), rec(1, "new")]);
    assert_eq!(fresh.len(), 2);
    let rows = fresh.rows();
    assert!(rows.iter().any(|r| r == &rec(1, "new")));
    assert!(rows.iter().any(|r| r == &rec(2, "two")));
    assert!(!rows.iter().any(|r| r == &rec(1, "old")));
}

#[test]
fn text_contains_and_order() {
    assert!(str_contains("Hello One", "Hello"));
    assert!(str_contains("Some more Data", "more"));
    assert!(str_contains("abc", ""));
    assert!(!str_contains("Some more Data", "Hello"));
    assert!(!str_contains("ab", "abc"));

    assert!(str_lt("abc", "abd"));
    assert!(str_lt("ab", "abc"));
    assert!(!str_lt("abc", "abc"));
    assert!(!str_lt("b", "abc"));
}

#[test]
fn record_order_breaks_ties_by_key() {
    let a = rec(1, "same");
    let b = rec(2, "same");
    assert!(record_lt(&SortBy::Val, &a, &b));
    assert!(!record_lt(&SortBy::Val, &b, &a));
    assert!(record_lt(&SortBy::Key, &a, &b));
    let c = rec(9, "alpha");
    assert!(record_lt(&SortBy::Val, &c, &a));
}

#[test]
fn local_view_applies_mutations() {
    let mut d = Data::new();
    d.update_data(DataChange::Insert(vec![rec(2, "b"), rec(1, "a")]));
    assert_eq!(d.len(), 2);
    assert_eq!(d.keys(), vec![1, 2]);

    // In the view an update upserts, exactly like an insert.
    d.update_data(DataChange::Update(vec![rec(1, "a2"), rec(5, "fresh")]));
    assert_eq!(d.len(), 3);
    assert_eq!(d.get(1), Some(rec(1, "a2")));
    assert_eq!(d.get(5), Some(rec(5, "fresh")));

    d.update_data(DataChange::Delete(vec![2, 7]));
    assert_eq!(d.len(), 2);
    assert_eq!(d.get(2), None);
}

#[test]
fn sorting_twice_changes_nothing() {
    let mut d = Data::new();
    d.insert(vec![rec(2, "bb"), rec(3, "aa"), rec(1, "cc")]);
    d.new_sorting_fn(SortBy::Val);
    let once = d.sorted();
    d.new_sorting_fn(SortBy::Val);
    let twice = d.sorted();
    assert_eq!(once, twice);
    assert_eq!(once, vec![rec(3, "aa"), rec(2, "bb"), rec(1, "cc")]);
}

#[test]
fn page_bounds() {
    let mut d = Data::new();
    assert_eq!(d.page(0, 5), None);
    d.insert(vec![rec(1, "a"), rec(2, "b"), rec(3, "c")]);
    assert_eq!(d.page(0, 0), None);
    assert_eq!(d.page(0, 2), Some(vec![rec(1, "a"), rec(2, "b")]));
    assert_eq!(d.page(1, 2), Some(vec![rec(3, "c")]));
    assert_eq!(d.page(2, 2), None);
    assert_eq!(d.page(1, 3), None);
}

#[test]
fn map_storage_round_trip() {
    let mut s = MapStorage::empty();
    assert!(matches!(s.insert(&rec(1, "one")), ChangeResult::Success));
    assert!(matches!(
        s.insert_many(&vec![rec(2, "two"), rec(3, "three")]),
        ChangeResult::Success
    ));
    assert!(matches!(s.update(&rec(2, "two prime")), ChangeResult::Success));
    // The store's update touches only keys it already holds.
    assert!(matches!(s.update(&rec(9, "absent")), ChangeResult::Success));
    assert!(matches!(s.delete(&3), ChangeResult::Success));

    match s.get_all() {
        QueryResponse::Fresh(f) => {
            assert_eq!(f.len(), 2);
            assert!(f.rows().iter().any(|r| r == &rec(1, "one")));
            assert!(f.rows().iter().any(|r| r == &rec(2, "two prime")));
            assert!(!f.rows().iter().any(|r| r.key == 9));
        },
        QueryResponse::Failed(_) => panic!("get_all failed"),
    }

    match s.get_by_id(1) {
        QueryResponse::Fresh(f) => assert_eq!(f.rows()[0], rec(1, "one")),
        QueryResponse::Failed(_) => panic!("get_by_id failed"),
    }
    assert!(matches!(s.get_by_id(42), QueryResponse::Failed(_)));

    match s.get_by_ids(vec![1, 2]) {
        QueryResponse::Fresh(f) => assert_eq!(f.len(), 2),
        QueryResponse::Failed(_) => panic!("get_by_ids failed"),
    }
    assert!(matches!(s.get_by_ids(vec![1, 42]), QueryResponse::Failed(_)));

    match s.get_by_predicate(Predicate::ValContains(String::from("prime"))) {
        QueryResponse::Fresh(f) => {
            assert_eq!(f.len(), 1);
            assert_eq!(f.rows()[0], rec(2, "two prime"));
        },
        QueryResponse::Failed(_) => panic!("get_by_predicate failed"),
    }
}

#[test]
fn handle_change_short_circuits_empty_batches() {
    let mut s = MapStorage::empty();
    let r = handle_change(&mut s, ChangeType::InsertMany(vec![]));
    match r {
        ChangeResponse::Changed(dc) => {
            assert!(dc.is_insert());
            assert!(dc.is_empty());
        },
        ChangeResponse::Failed(_) => panic!("empty insert refused"),
    }
    // Nothing reached the storage.
    match handle_query(&mut s, QueryType::All) {
        QueryResponse::Fresh(f) => assert_eq!(f.len(), 0),
        QueryResponse::Failed(_) => panic!("get_all failed"),
    }
}

#[test]
fn handle_change_reports_the_written_mutation() {
    let mut s = MapStorage::empty();
    let r = handle_change(&mut s, ChangeType::Insert(rec(1, "x")));
    match r {
        ChangeResponse::Changed(dc) => {
            assert!(dc.is_insert());
            assert_eq!(dc.value_keys(), vec![1]);
        },
        ChangeResponse::Failed(_) => panic!("insert refused"),
    }
    let r2 = handle_change(&mut s, ChangeType::DeleteMany(vec![1]));
    match r2 {
        ChangeResponse::Changed(dc) => {
            assert!(dc.is_delete());
            assert_eq!(dc.value_keys(), vec![1]);
        },
        ChangeResponse::Failed(_) => panic!("delete refused"),
    }
}
