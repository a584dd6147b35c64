//! End-to-end runs of the container with clients over the in-memory storage.

use data_container::change::ChangeResult;
use data_container::communicator::Communicator;
use data_container::container::storage::MapStorage;
use data_container::container::DataContainer;
use data_container::order::SortBy;
use data_container::query::{Predicate, QueryType};
use data_container::Record;

type Cont = DataContainer<MapStorage>;

fn rec(key: u64, val: &str) -> Record {
    Record::new(key, String::from(val))
}

fn settle2(cont: &mut Cont, a: &mut Communicator, b: &mut Communicator) {
    for _ in 0..4 {
        cont.state_update();
        a.state_update(cont);
        b.state_update(cont);
    }
}

fn settle1(cont: &mut Cont, a: &mut Communicator) {
    for _ in 0..4 {
        cont.state_update();
        a.state_update(cont);
    }
}

fn contains(comm: &Communicator, val: &Record) -> bool {
    comm.data().iter().any(|r| r == val)
}

#[test]
fn data_should_be_shared_to_everyone() {
    let mut cont = Cont::init(());
    let mut a = cont.communicator();
    let mut b = cont.communicator();

    a.query(&mut cont, QueryType::All);
    b.query(&mut cont, QueryType::All);
    settle2(&mut cont, &mut a, &mut b);

    a.insert(&mut cont, rec(1, "Hello One"));
    settle2(&mut cont, &mut a, &mut b);
    b.insert(&mut cont, rec(2, "Hello Two"));
    settle2(&mut cont, &mut a, &mut b);
    a.insert(&mut cont, rec(3, "Some more Data"));
    settle2(&mut cont, &mut a, &mut b);

    assert_eq!(a.data.len(), b.data.len());
    for v in [rec(1, "Hello One"), rec(2, "Hello Two"), rec(3, "Some more Data")] {
        assert!(contains(&a, &v));
        assert!(contains(&b, &v));
    }
}

#[test]
fn only_interesting_data_should_be_shared() {
    let mut cont = Cont::init(());
    let mut a = cont.communicator();
    let mut b = cont.communicator();

    a.query(&mut cont, QueryType::All);
    b.query(
        &mut cont,
        QueryType::predicate(Predicate::ValContains(String::from("Hello"))),
    );
    settle2(&mut cont, &mut a, &mut b);

    a.insert(&mut cont, rec(1, "Hello One"));
    settle2(&mut cont, &mut a, &mut b);
    a.insert(&mut cont, rec(2, "Hello Two"));
    settle2(&mut cont, &mut a, &mut b);
    a.insert(&mut cont, rec(3, "Some more Data"));
    settle2(&mut cont, &mut a, &mut b);

    assert!(contains(&a, &rec(3, "Some more Data")));
    assert!(!contains(&b, &rec(3, "Some more Data")));
    assert!(contains(&b, &rec(1, "Hello One")));
    assert!(contains(&b, &rec(2, "Hello Two")));
}

#[test]
fn update_should_change_values() {
    let mut cont = Cont::init(());
    let mut a = cont.communicator();
    let mut b = cont.communicator();

    a.query(&mut cont, QueryType::All);
    b.query(&mut cont, QueryType::All);
    settle2(&mut cont, &mut a, &mut b);

    a.insert(&mut cont, rec(1, "Hello One"));
    settle2(&mut cont, &mut a, &mut b);
    b.update(&mut cont, rec(1, "Hello Two"));
    settle2(&mut cont, &mut a, &mut b);

    assert!(contains(&a, &rec(1, "Hello Two")));
    assert!(!contains(&a, &rec(1, "Hello One")));
    assert!(contains(&b, &rec(1, "Hello Two")));
    assert!(!contains(&b, &rec(1, "Hello One")));
}

#[test]
fn deleting_value_should_propagate_change() {
    let mut cont = Cont::init(());
    let mut a = cont.communicator();
    let mut b = cont.communicator();

    a.query(&mut cont, QueryType::All);
    b.query(&mut cont, QueryType::All);
    settle2(&mut cont, &mut a, &mut b);

    a.insert(&mut cont, rec(1, "Hello One"));
    settle2(&mut cont, &mut a, &mut b);
    b.insert(&mut cont, rec(2, "Hello Two"));
    settle2(&mut cont, &mut a, &mut b);

    assert_eq!(a.data.len(), 2);
    assert_eq!(b.data.len(), 2);

    a.delete(&mut cont, 2);
    settle2(&mut cont, &mut a, &mut b);

    assert!(contains(&a, &rec(1, "Hello One")));
    assert!(!contains(&a, &rec(2, "Hello Two")));
    assert!(contains(&b, &rec(1, "Hello One")));
    assert!(!contains(&b, &rec(2, "Hello Two")));
    assert_eq!(a.data.len(), 1);
    assert_eq!(b.data.len(), 1);
}

#[test]
fn new_insert_should_change_has_changed_flag() {
    let mut cont = Cont::init(());
    let mut a = cont.communicator();

    a.query(&mut cont, QueryType::All);
    assert!(a.is_empty());
    assert!(a.has_changed());

    a.set_viewed();
    assert!(!a.has_changed());

    settle1(&mut cont, &mut a);
    // The query reply arrived, so the flag is raised again.
    assert!(a.has_changed());
    a.set_viewed();

    a.insert(&mut cont, rec(1, "Hello One"));
    settle1(&mut cont, &mut a);
    assert!(a.has_changed());
}

#[test]
fn sort_data_should_sort_data_accordingly() {
    let mut cont = Cont::init(());
    let mut a = cont.communicator();

    a.query(&mut cont, QueryType::All);
    settle1(&mut cont, &mut a);

    a.insert_many(&mut cont, vec![rec(2, "B"), rec(3, "C"), rec(1, "A")]);
    settle1(&mut cont, &mut a);
    a.sort(SortBy::Val);

    let sorted = a.data.sorted();
    assert_eq!(sorted, vec![rec(1, "A"), rec(2, "B"), rec(3, "C")]);
}

#[test]
fn pagination_sould_return_correct_page_and_page_size() {
    let mut cont = Cont::init(());
    let mut a = cont.communicator();

    a.query(&mut cont, QueryType::All);
    settle1(&mut cont, &mut a);

    let rows: Vec<Record> = (0..30).map(|n| rec(n, "test")).collect();
    a.insert_many(&mut cont, rows);
    settle1(&mut cont, &mut a);

    assert_eq!(a.data.len(), 30);
    let sorted = a.data.sorted();
    let first: Vec<Record> = sorted[0..10].to_vec();
    assert_eq!(a.data.page(0, 10), Some(first));
    let last: Vec<Record> = sorted[20..30].to_vec();
    assert_eq!(a.data.page(1, 20), Some(last));
    assert_eq!(a.data.page(2, 20), None);
}

#[test]
fn empty_batch_changes_succeed_without_touching_storage() {
    let mut cont = Cont::init(());
    let mut a = cont.communicator();

    a.query(&mut cont, QueryType::All);
    settle1(&mut cont, &mut a);
    a.insert(&mut cont, rec(7, "kept"));
    settle1(&mut cont, &mut a);

    let t1 = a.insert_many(&mut cont, vec![]);
    let t2 = a.update_many(&mut cont, vec![]);
    let t3 = a.delete_many(&mut cont, vec![]);
    settle1(&mut cont, &mut a);

    assert!(matches!(
        cont.take_change_result(t1.ticket),
        Some(ChangeResult::Success)
    ));
    assert!(matches!(
        cont.take_change_result(t2.ticket),
        Some(ChangeResult::Success)
    ));
    assert!(matches!(
        cont.take_change_result(t3.ticket),
        Some(ChangeResult::Success)
    ));

    // The storage still answers with exactly the one row.
    a.query(&mut cont, QueryType::All);
    settle1(&mut cont, &mut a);
    assert_eq!(a.data.len(), 1);
    assert!(contains(&a, &rec(7, "kept")));
}

#[test]
fn insert_update_delete_leaves_no_row() {
    let mut cont = Cont::init(());
    let mut a = cont.communicator();
    let mut b = cont.communicator();

    a.query(&mut cont, QueryType::All);
    b.query(&mut cont, QueryType::All);
    settle2(&mut cont, &mut a, &mut b);

    a.insert(&mut cont, rec(5, "first"));
    settle2(&mut cont, &mut a, &mut b);
    a.update(&mut cont, rec(5, "second"));
    settle2(&mut cont, &mut a, &mut b);
    a.delete(&mut cont, 5);
    settle2(&mut cont, &mut a, &mut b);

    assert!(a.is_empty());
    assert!(b.is_empty());

    // A fresh query against the storage finds nothing either.
    a.query(&mut cont, QueryType::All);
    settle2(&mut cont, &mut a, &mut b);
    assert!(a.is_empty());
}

#[test]
fn query_replaces_knowledge() {
    let mut cont = Cont::init(());
    let mut a = cont.communicator();
    let mut b = cont.communicator();

    a.query(&mut cont, QueryType::All);
    b.query(&mut cont, QueryType::All);
    settle2(&mut cont, &mut a, &mut b);

    a.insert(&mut cont, rec(1, "one"));
    settle2(&mut cont, &mut a, &mut b);
    a.insert(&mut cont, rec(2, "two"));
    settle2(&mut cont, &mut a, &mut b);

    // A narrows its knowledge (and standing query) to key 1 only.
    a.query(&mut cont, QueryType::GetById(1));
    settle2(&mut cont, &mut a, &mut b);

    // An update of key 2 no longer reaches A.
    b.update(&mut cont, rec(2, "two prime"));
    settle2(&mut cont, &mut a, &mut b);

    assert!(contains(&a, &rec(2, "two")));
    assert!(!contains(&a, &rec(2, "two prime")));
    assert!(contains(&b, &rec(2, "two prime")));
}

#[test]
fn dropped_recipient_does_not_stop_the_container() {
    let mut cont = Cont::init(());
    let mut a = cont.communicator();
    let b = cont.communicator();
    let b_id = b.id();

    a.query(&mut cont, QueryType::All);
    b.query(&mut cont, QueryType::All);
    settle1(&mut cont, &mut a);

    // A mutation is on its way to both clients; B disappears mid-dispatch.
    a.insert(&mut cont, rec(1, "survives"));
    cont.state_update();
    cont.state_update();
    cont.remove_communicator(b_id);
    drop(b);
    settle1(&mut cont, &mut a);

    assert!(contains(&a, &rec(1, "survives")));

    // The container keeps serving the remaining client.
    a.insert(&mut cont, rec(2, "more"));
    settle1(&mut cont, &mut a);
    assert!(contains(&a, &rec(2, "more")));
}

#[test]
fn backlog_drains_through_bounded_mailbox() {
    let mut cont = Cont::init(());
    let mut a = cont.communicator();

    a.query(&mut cont, QueryType::All);
    settle1(&mut cont, &mut a);

    // A thousand changes back to back; the mailbox holds at most twenty, so
    // the pool stalls the rest until the consumer drains.
    for n in 0..1000u64 {
        a.insert(&mut cont, rec(n, "bulk"));
    }
    for _ in 0..200 {
        cont.state_update();
        a.state_update(&mut cont);
        if a.data.len() == 1000 {
            break;
        }
    }
    assert_eq!(a.data.len(), 1000);
    for n in 0..1000u64 {
        assert!(a.data.get(n).is_some());
    }
}

#[test]
fn idle_tick_changes_nothing() {
    let mut cont = Cont::init(());
    let mut a = cont.communicator();

    a.query(&mut cont, QueryType::All);
    settle1(&mut cont, &mut a);
    a.insert(&mut cont, rec(1, "steady"));
    settle1(&mut cont, &mut a);
    let before = a.data();

    // Nothing is queued, pending or in flight: further ticks are no-ops.
    cont.state_update();
    cont.state_update();
    a.state_update(&mut cont);

    assert_eq!(a.data(), before);
    assert!(cont.take_change_result(9999).is_none());
}

#[test]
fn mutations_arrive_in_submission_order() {
    let mut cont = Cont::init(());
    let mut a = cont.communicator();

    a.query(&mut cont, QueryType::All);
    settle1(&mut cont, &mut a);

    // Both submitted back to back before any tick; the later one must win.
    a.insert(&mut cont, rec(1, "first"));
    a.update(&mut cont, rec(1, "second"));
    settle1(&mut cont, &mut a);

    assert!(contains(&a, &rec(1, "second")));
    assert!(!contains(&a, &rec(1, "first")));
}

#[test]
fn small_mailbox_capacity_still_delivers_everything() {
    let mut cont = Cont::init_with_capacity((), 2);
    let mut a = cont.communicator();

    a.query(&mut cont, QueryType::All);
    settle1(&mut cont, &mut a);

    for n in 0..10u64 {
        a.insert(&mut cont, rec(n, "tiny"));
    }
    for _ in 0..40 {
        cont.state_update();
        a.state_update(&mut cont);
        if a.data.len() == 10 {
            break;
        }
    }
    assert_eq!(a.data.len(), 10);
}
