//! The storage contract the container writes through, and a map-backed
//! implementation of it.

use vstd::prelude::*;

use crate::change::{
    remove_keys, update_rows, upsert_rows, ChangeResponse, ChangeResult, ChangeType,
};
use crate::query::{
    lemma_fold_rows_as_map, FreshData, Predicate, QueryError, QueryResponse, QueryType, QueryTypeV,
};
use crate::{as_map, distinct_keys, filter_rows, Record, RecordV};

verus! {

/// What a successful query of each form returns, as a map of row snapshots
/// taken from the storage contents.
pub open spec fn query_fresh_matches(
    q: QueryTypeV,
    m: Map<u64, RecordV>,
    f: Map<u64, RecordV>,
) -> bool {
    match q {
        QueryTypeV::All => f == m,
        QueryTypeV::GetById(k) => m.dom().contains(k) && f == Map::<u64, RecordV>::empty().insert(
            k,
            m[k],
        ),
        QueryTypeV::GetByIds(ks) => (forall|t: int|
            0 <= t < ks.len() ==> m.dom().contains(#[trigger] ks[t])) && f == m.restrict(
            ks.to_set(),
        ),
        QueryTypeV::Predicate(p) => f == Map::<u64, RecordV>::new(
            |k: u64| m.dom().contains(k) && p.accepts(m[k]),
            |k: u64| m[k],
        ),
    }
}

/// The authority behind the cache.  Change operations report success or
/// failure; on success they have the stated effect on the contents and on
/// failure they leave it unchanged.  Query operations never change the
/// contents, and what they return on success reflects it.
pub trait Storage: Sized {
    /// What the implementation needs to start up.
    type InitArgs;

    /// The implementation's internal well-formedness; operations keep it.
    spec fn inv(&self) -> bool;

    /// The rows the storage currently holds.
    spec fn contents(&self) -> Map<u64, RecordV>;

    fn init(args: Self::InitArgs) -> (r: Self)
        ensures
            r.inv(),
    ;

    fn insert(&mut self, value: &Record) -> (r: ChangeResult)
        requires
            old(self).inv(),
        ensures
            final(self).inv(),
            r is Success ==> final(self).contents() == old(self).contents().insert(
                value@.key,
                value@,
            ),
            r is Error ==> final(self).contents() == old(self).contents(),
    ;

    fn insert_many(&mut self, values: &Vec<Record>) -> (r: ChangeResult)
        requires
            old(self).inv(),
        ensures
            final(self).inv(),
            r is Success ==> final(self).contents() == upsert_rows(
                old(self).contents(),
                values.deep_view(),
            ),
            r is Error ==> final(self).contents() == old(self).contents(),
    ;

    fn update(&mut self, value: &Record) -> (r: ChangeResult)
        requires
            old(self).inv(),
        ensures
            final(self).inv(),
            r is Success ==> final(self).contents() == update_rows(
                old(self).contents(),
                seq![value@],
            ),
            r is Error ==> final(self).contents() == old(self).contents(),
    ;

    fn update_many(&mut self, values: &Vec<Record>) -> (r: ChangeResult)
        requires
            old(self).inv(),
        ensures
            final(self).inv(),
            r is Success ==> final(self).contents() == update_rows(
                old(self).contents(),
                values.deep_view(),
            ),
            r is Error ==> final(self).contents() == old(self).contents(),
    ;

    fn delete(&mut self, key: &u64) -> (r: ChangeResult)
        requires
            old(self).inv(),
        ensures
            final(self).inv(),
            r is Success ==> final(self).contents() == old(self).contents().remove(*key),
            r is Error ==> final(self).contents() == old(self).contents(),
    ;

    fn delete_many(&mut self, keys: &Vec<u64>) -> (r: ChangeResult)
        requires
            old(self).inv(),
        ensures
            final(self).inv(),
            r is Success ==> final(self).contents() == remove_keys(
                old(self).contents(),
                keys.deep_view(),
            ),
            r is Error ==> final(self).contents() == old(self).contents(),
    ;

    fn get_all(&mut self) -> (r: QueryResponse)
        requires
            old(self).inv(),
        ensures
            final(self).inv(),
            final(self).contents() == old(self).contents(),
            r is Fresh ==> r->Fresh_0.wf() && query_fresh_matches(
                QueryTypeV::All,
                old(self).contents(),
                r->Fresh_0.key_map(),
            ),
    ;

    fn get_by_id(&mut self, key: u64) -> (r: QueryResponse)
        requires
            old(self).inv(),
        ensures
            final(self).inv(),
            final(self).contents() == old(self).contents(),
            r is Fresh ==> r->Fresh_0.wf() && query_fresh_matches(
                QueryTypeV::GetById(key),
                old(self).contents(),
                r->Fresh_0.key_map(),
            ),
            !old(self).contents().dom().contains(key) ==> r is Failed,
    ;

    fn get_by_ids(&mut self, keys: Vec<u64>) -> (r: QueryResponse)
        requires
            old(self).inv(),
        ensures
            final(self).inv(),
            final(self).contents() == old(self).contents(),
            r is Fresh ==> r->Fresh_0.wf() && query_fresh_matches(
                QueryTypeV::GetByIds(keys.deep_view()),
                old(self).contents(),
                r->Fresh_0.key_map(),
            ),
    ;

    fn get_by_predicate(&mut self, predicate: Predicate) -> (r: QueryResponse)
        requires
            old(self).inv(),
        ensures
            final(self).inv(),
            final(self).contents() == old(self).contents(),
            r is Fresh ==> r->Fresh_0.wf() && query_fresh_matches(
                QueryTypeV::Predicate(predicate.deep_view()),
                old(self).contents(),
                r->Fresh_0.key_map(),
            ),
    ;
}

/// Routes one change request to the matching storage operation.  An empty
/// batch request is answered successfully without reaching the storage, with
/// an empty mutation of the matching kind.
pub fn handle_change<W: Storage>(storage: &mut W, action: ChangeType) -> (r: ChangeResponse)
    requires
        old(storage).inv(),
    ensures
        final(storage).inv(),
        action.deep_view().is_empty() ==> r is Changed && final(storage).contents()
            == old(storage).contents(),
        r is Changed ==> r->Changed_0.deep_view() == action.deep_view().delta()
            && final(storage).contents() == action.deep_view().delta().apply_to_store(
            old(storage).contents(),
        ),
        r is Failed ==> final(storage).contents() == old(storage).contents(),
{
    if action.is_empty() {
        let r = ChangeResponse::empty_ok(&action);
        proof {
            let d = r->Changed_0.deep_view();
            let e = action.deep_view().delta();
            assert(d.len() == 0 && e.len() == 0);
            match d {
                crate::change::DataChangeV::Insert(vs) => {
                    assert(vs =~= e->Insert_0);
                },
                crate::change::DataChangeV::Update(vs) => {
                    assert(vs =~= e->Update_0);
                },
                crate::change::DataChangeV::Delete(ks) => {
                    assert(ks =~= e->Delete_0);
                },
            }
            assert(e.apply_to_store(old(storage).contents()) == old(storage).contents());
        }
        return r;
    }
    let result = match &action {
        ChangeType::Insert(value) => {
            let ghost m = old(storage).contents();
            let r = storage.insert(value);
            proof {
                assert(seq![value@].drop_last() =~= Seq::<RecordV>::empty());
                assert(upsert_rows(m, Seq::<RecordV>::empty()) == m);
            }
            r
        },
        ChangeType::InsertMany(values) => storage.insert_many(values),
        ChangeType::Update(value) => {
            let r = storage.update(value);
            proof {
                assert(seq![value@].drop_last() =~= Seq::<RecordV>::empty());
            }
            r
        },
        ChangeType::UpdateMany(values) => storage.update_many(values),
        ChangeType::Delete(key) => {
            let ghost m = old(storage).contents();
            let r = storage.delete(key);
            proof {
                assert(seq![*key].drop_last() =~= Seq::<u64>::empty());
                assert(remove_keys(m, Seq::<u64>::empty()) == m);
            }
            r
        },
        ChangeType::DeleteMany(keys) => storage.delete_many(keys),
    };
    ChangeResponse::from_type_and_result(action, result)
}

/// Routes one query to the matching storage operation.
pub fn handle_query<W: Storage>(storage: &mut W, query: QueryType) -> (r: QueryResponse)
    requires
        old(storage).inv(),
    ensures
        final(storage).inv(),
        final(storage).contents() == old(storage).contents(),
        r is Fresh ==> r->Fresh_0.wf() && query_fresh_matches(
            query.deep_view(),
            old(storage).contents(),
            r->Fresh_0.key_map(),
        ),
        (query.deep_view() matches QueryTypeV::GetById(k)
            && !old(storage).contents().dom().contains(k)) ==> r is Failed,
{
    match query {
        QueryType::All => storage.get_all(),
        QueryType::GetById(id) => storage.get_by_id(id),
        QueryType::GetByIds(ids) => storage.get_by_ids(ids),
        QueryType::Predicate(pred) => storage.get_by_predicate(pred),
    }
}

/// Inserting a row, updating it, and then deleting its key leaves the store
/// with no row at that key, whatever was there before.
pub proof fn lemma_insert_update_delete(
    m: Map<u64, RecordV>,
    v: RecordV,
    v2: RecordV,
)
    requires
        v2.key == v.key,
    ensures
        !m.insert(v.key, v).insert(v2.key, v2).remove(v.key).dom().contains(v.key),
        m.insert(v.key, v).insert(v2.key, v2).remove(v.key) == m.remove(v.key),
{
    assert(m.insert(v.key, v).insert(v2.key, v2).remove(v.key) =~= m.remove(v.key));
}

/// An in-memory storage: the authoritative rows held as a batch with unique
/// keys.
#[derive(Debug)]
pub struct MapStorage {
    rows: Vec<Record>,
}

impl MapStorage {
    /// An empty storage.
    pub fn empty() -> (r: Self)
        ensures
            r.inv(),
            r.contents() == Map::<u64, RecordV>::empty(),
    {
        let r = MapStorage { rows: Vec::new() };
        proof {
            assert(r.rows.deep_view() =~= Seq::<RecordV>::empty());
            assert(as_map(r.rows.deep_view()) =~= Map::<u64, RecordV>::empty());
        }
        r
    }
}

impl Storage for MapStorage {
    type InitArgs = ();

    /// The batch never carries two rows with one key.
    closed spec fn inv(&self) -> bool {
        distinct_keys(self.rows.deep_view())
    }

    closed spec fn contents(&self) -> Map<u64, RecordV> {
        as_map(self.rows.deep_view())
    }

    fn init(args: ()) -> Self {
        MapStorage::empty()
    }

    fn insert(&mut self, value: &Record) -> (r: ChangeResult) {
        crate::upsert_row(&mut self.rows, value.clone());
        ChangeResult::Success
    }

    fn insert_many(&mut self, values: &Vec<Record>) -> (r: ChangeResult) {
        let ghost vs = values.deep_view();
        let ghost m0 = self.contents();
        let mut i: usize = 0;
        proof {
            assert(vs.take(0) =~= Seq::<RecordV>::empty());
        }
        while i < values.len()
            invariant
                i <= values.len(),
                values.deep_view() == vs,
                distinct_keys(self.rows.deep_view()),
                self.contents() == upsert_rows(m0, vs.take(i as int)),
            decreases values.len() - i,
        {
            let v = values[i].clone();
            proof {
                assert(v@ == vs[i as int]);
            }
            crate::upsert_row(&mut self.rows, v);
            proof {
                assert(vs.take(i + 1).drop_last() =~= vs.take(i as int));
            }
            i += 1;
        }
        proof {
            assert(vs.take(values.len() as int) =~= vs);
        }
        ChangeResult::Success
    }

    fn update(&mut self, value: &Record) -> (r: ChangeResult) {
        let ghost m = old(self).contents();
        crate::update_row(&mut self.rows, value.clone());
        proof {
            assert(seq![value@].drop_last() =~= Seq::<RecordV>::empty());
            assert(update_rows(m, Seq::<RecordV>::empty()) == m);
        }
        ChangeResult::Success
    }

    fn update_many(&mut self, values: &Vec<Record>) -> (r: ChangeResult) {
        let ghost vs = values.deep_view();
        let ghost m0 = self.contents();
        let mut i: usize = 0;
        proof {
            assert(vs.take(0) =~= Seq::<RecordV>::empty());
        }
        while i < values.len()
            invariant
                i <= values.len(),
                values.deep_view() == vs,
                distinct_keys(self.rows.deep_view()),
                self.contents() == update_rows(m0, vs.take(i as int)),
            decreases values.len() - i,
        {
            let v = values[i].clone();
            proof {
                assert(v@ == vs[i as int]);
            }
            crate::update_row(&mut self.rows, v);
            proof {
                assert(vs.take(i + 1).drop_last() =~= vs.take(i as int));
            }
            i += 1;
        }
        proof {
            assert(vs.take(values.len() as int) =~= vs);
        }
        ChangeResult::Success
    }

    fn delete(&mut self, key: &u64) -> (r: ChangeResult) {
        crate::remove_row(&mut self.rows, *key);
        ChangeResult::Success
    }

    fn delete_many(&mut self, keys: &Vec<u64>) -> (r: ChangeResult) {
        let ghost ks = keys.deep_view();
        let ghost m0 = self.contents();
        let mut i: usize = 0;
        proof {
            assert(ks.take(0) =~= Seq::<u64>::empty());
        }
        while i < keys.len()
            invariant
                i <= keys.len(),
                keys.deep_view() == ks,
                distinct_keys(self.rows.deep_view()),
                self.contents() == remove_keys(m0, ks.take(i as int)),
            decreases keys.len() - i,
        {
            let k = keys[i];
            proof {
                assert(k == ks[i as int]);
            }
            crate::remove_row(&mut self.rows, k);
            proof {
                assert(ks.take(i + 1).drop_last() =~= ks.take(i as int));
            }
            i += 1;
        }
        proof {
            assert(ks.take(keys.len() as int) =~= ks);
        }
        ChangeResult::Success
    }

    fn get_all(&mut self) -> (r: QueryResponse) {
        let rows = self.clone_rows();
        let fresh = FreshData::from_vec(rows);
        proof {
            lemma_fold_rows_as_map(self.rows.deep_view());
        }
        QueryResponse::Fresh(fresh)
    }

    fn get_by_id(&mut self, key: u64) -> (r: QueryResponse) {
        let found = crate::position_of_key(&self.rows, key);
        match found {
            Some(at) => {
                let v = self.rows[at].clone();
                proof {
                    crate::lemma_as_map_index(self.rows.deep_view(), at as int);
                }
                let fresh = FreshData::from_value(v);
                proof {
                    let s = fresh@;
                    assert(s.len() == 1);
                    assert(as_map(s) =~= Map::<u64, RecordV>::empty().insert(key, s[0]));
                }
                QueryResponse::Fresh(fresh)
            },
            None => QueryResponse::Failed(QueryError::NotPresent),
        }
    }

    fn get_by_ids(&mut self, keys: Vec<u64>) -> (r: QueryResponse) {
        let ghost m = self.contents();
        let ghost ks = keys.deep_view();
        let mut picked: Vec<Record> = Vec::new();
        let mut i: usize = 0;
        proof {
            assert(picked.deep_view() =~= Seq::<RecordV>::empty());
        }
        while i < keys.len()
            invariant
                i <= keys.len(),
                keys.deep_view() == ks,
                distinct_keys(self.rows.deep_view()),
                m == self.contents(),
                forall|t: int| 0 <= t < i ==> m.dom().contains(#[trigger] ks[t]),
                crate::query::fold_rows(picked.deep_view()) == m.restrict(
                    ks.take(i as int).to_set(),
                ),
            decreases keys.len() - i,
        {
            let k = keys[i];
            proof {
                assert(k == ks[i as int]);
            }
            let found = crate::position_of_key(&self.rows, k);
            match found {
                Some(at) => {
                    let v = self.rows[at].clone();
                    proof {
                        crate::lemma_as_map_index(self.rows.deep_view(), at as int);
                        assert(v@ == m[k]);
                    }
                    let ghost pre = picked.deep_view();
                    picked.push(v);
                    proof {
                        assert(picked.deep_view() =~= pre.push(v@));
                        assert(picked.deep_view().drop_last() =~= pre);
                        assert forall|x: u64| ks.take(i + 1).contains(x) implies (ks.take(
                            i as int,
                        ).contains(x) || x == k) by {
                            let t = choose|t: int|
                                0 <= t < i + 1 && #[trigger] ks.take(i + 1)[t] == x;
                            if t < i {
                                assert(ks.take(i as int)[t] == x);
                            }
                        }
                        assert forall|x: u64| ks.take(i as int).contains(x) implies ks.take(
                            i + 1,
                        ).contains(x) by {
                            let t = choose|t: int|
                                0 <= t < i && #[trigger] ks.take(i as int)[t] == x;
                            assert(ks.take(i + 1)[t] == x);
                        }
                        assert(ks.take(i + 1)[i as int] == k);
                        assert(ks.take(i + 1).contains(k));
                        assert(ks.take(i + 1).to_set() =~= ks.take(i as int).to_set().insert(k));
                        assert(crate::query::fold_rows(picked.deep_view()) =~= m.restrict(
                            ks.take(i + 1).to_set(),
                        ));
                    }
                },
                None => {
                    return QueryResponse::Failed(QueryError::NotPresent);
                },
            }
            i += 1;
        }
        proof {
            assert(ks.take(keys.len() as int) =~= ks);
        }
        let fresh = FreshData::from_vec(picked);
        proof {
            crate::lemma_as_map_dom(fresh@);
        }
        QueryResponse::Fresh(fresh)
    }

    fn get_by_predicate(&mut self, predicate: Predicate) -> (r: QueryResponse) {
        let ghost s = self.rows.deep_view();
        let ghost f = |r: RecordV| predicate.deep_view().accepts(r);
        let mut picked: Vec<Record> = Vec::new();
        let mut i: usize = 0;
        proof {
            assert(s.take(0) =~= Seq::<RecordV>::empty());
            assert(picked.deep_view() =~= filter_rows(s.take(0), f));
        }
        while i < self.rows.len()
            invariant
                i <= self.rows.len(),
                s == self.rows.deep_view(),
                distinct_keys(s),
                f == (|r: RecordV| predicate.deep_view().accepts(r)),
                picked.deep_view() == filter_rows(s.take(i as int), f),
            decreases self.rows.len() - i,
        {
            let v = self.rows[i].clone();
            proof {
                assert(v@ == s[i as int]);
                assert(s.take(i + 1).drop_last() =~= s.take(i as int));
                assert(s.take(i + 1).last() == s[i as int]);
            }
            if predicate.eval(&v) {
                let ghost pre = picked.deep_view();
                picked.push(v);
                proof {
                    assert(picked.deep_view() =~= pre.push(v@));
                }
            }
            i += 1;
        }
        proof {
            assert(s.take(self.rows.len() as int) =~= s);
            crate::lemma_filter_rows_as_map(s, f);
            lemma_fold_rows_as_map(picked.deep_view());
        }
        let fresh = FreshData::from_vec(picked);
        proof {
            let m = as_map(s);
            assert(fresh.key_map() =~= Map::<u64, RecordV>::new(
                |k: u64| m.dom().contains(k) && predicate.deep_view().accepts(m[k]),
                |k: u64| m[k],
            ));
        }
        QueryResponse::Fresh(fresh)
    }
}

impl MapStorage {
    /// A snapshot of all rows.
    fn clone_rows(&self) -> (r: Vec<Record>)
        ensures
            r.deep_view() == self.rows.deep_view(),
    {
        let mut out: Vec<Record> = Vec::new();
        proof {
            assert(out.deep_view() =~= self.rows.deep_view().take(0));
        }
        let mut i: usize = 0;
        while i < self.rows.len()
            invariant
                i <= self.rows.len(),
                out.deep_view() == self.rows.deep_view().take(i as int),
            decreases self.rows.len() - i,
        {
            let v = self.rows[i].clone();
            proof {
                assert(v@ == self.rows.deep_view()[i as int]);
            }
            let ghost pre = out.deep_view();
            out.push(v);
            proof {
                assert(out.deep_view() =~= pre.push(v@));
                assert(out.deep_view() =~= self.rows.deep_view().take(i as int + 1));
            }
            i += 1;
        }
        proof {
            assert(out.deep_view() =~= self.rows.deep_view());
        }
        out
    }
}

} // verus!
