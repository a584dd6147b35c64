//! The local materialized view a client keeps: a key-to-row map held in the
//! order of a chosen comparator, with pagination.

use vstd::prelude::*;

use crate::change::{remove_keys, upsert_rows, DataChange};
use crate::order::{sorted_by, sort_records, SortBy};
use crate::query::FreshData;
use crate::{
    as_map, distinct_keys, has_key, lemma_remove_as_map, position_of_key, seq_keys, Record,
    RecordV,
};

verus! {

/// The rows a client currently holds, kept sorted under its comparator.
#[derive(Debug)]
pub struct Data {
    rows: Vec<Record>,
    sorting: SortBy,
}

impl View for Data {
    type V = Seq<RecordV>;

    /// The rows in their sorted order.
    closed spec fn view(&self) -> Seq<RecordV> {
        self.rows.deep_view()
    }
}

impl Data {
    /// The comparator currently ordering the view.
    pub closed spec fn sorting(self) -> SortBy {
        self.sorting
    }

    /// Keys are unique and the rows stand in comparator order.
    pub open spec fn wf(self) -> bool {
        distinct_keys(self@) && sorted_by(self@, self.sorting())
    }

    /// The rows as a map from key to row.
    pub open spec fn key_map(self) -> Map<u64, RecordV> {
        as_map(self@)
    }

    /// An empty view ordered by key.
    pub fn new() -> (r: Self)
        ensures
            r.wf(),
            r@ == Seq::<RecordV>::empty(),
            r.sorting() == SortBy::Key,
    {
        let r = Data { rows: Vec::new(), sorting: SortBy::Key };
        proof {
            assert(r@ =~= Seq::<RecordV>::empty());
        }
        r
    }

    /// Restores comparator order after the rows were changed.
    fn resort(&mut self)
        requires
            distinct_keys(old(self)@),
        ensures
            final(self).wf(),
            final(self).sorting() == old(self).sorting(),
            final(self).key_map() == old(self).key_map(),
            final(self)@.to_multiset() == old(self)@.to_multiset(),
    {
        let sb = self.sorting;
        sort_records(&mut self.rows, &sb);
        proof {
            crate::lemma_as_map_permutation(old(self)@, self@);
        }
    }

    /// Applies one delivered mutation to the view.
    pub fn update_data(&mut self, change: DataChange)
        requires
            old(self).wf(),
        ensures
            final(self).wf(),
            final(self).sorting() == old(self).sorting(),
            final(self).key_map() == change.deep_view().apply_to_view(old(self).key_map()),
    {
        match change {
            DataChange::Insert(values) => self.insert(values),
            DataChange::Update(values) => self.update(values),
            DataChange::Delete(keys) => self.delete(keys),
        }
    }

    /// Merges a query reply into the view: every fresh row lands under its
    /// key.
    pub fn add_fresh_data(&mut self, data: FreshData)
        requires
            old(self).wf(),
        ensures
            final(self).wf(),
            final(self).sorting() == old(self).sorting(),
            final(self).key_map() == upsert_rows(old(self).key_map(), data@),
    {
        let ghost fresh = data@;
        let rows = data.into_rows();
        self.extend_rows(rows);
    }

    /// Upserts a batch of rows.
    pub fn insert(&mut self, insert: Vec<Record>)
        requires
            old(self).wf(),
        ensures
            final(self).wf(),
            final(self).sorting() == old(self).sorting(),
            final(self).key_map() == upsert_rows(old(self).key_map(), insert.deep_view()),
    {
        self.extend_rows(insert);
    }

    fn extend_rows(&mut self, insert: Vec<Record>)
        requires
            old(self).wf(),
        ensures
            final(self).wf(),
            final(self).sorting() == old(self).sorting(),
            final(self).key_map() == upsert_rows(old(self).key_map(), insert.deep_view()),
    {
        let ghost vs = insert.deep_view();
        let mut i: usize = 0;
        proof {
            assert(vs.take(0) =~= Seq::<RecordV>::empty());
        }
        while i < insert.len()
            invariant
                i <= insert.len(),
                insert.deep_view() == vs,
                distinct_keys(self@),
                self.sorting() == old(self).sorting(),
                as_map(self@) == upsert_rows(old(self).key_map(), vs.take(i as int)),
            decreases insert.len() - i,
        {
            let v = insert[i].clone();
            proof {
                assert(v@ == vs[i as int]);
            }
            crate::upsert_row(&mut self.rows, v);
            proof {
                assert(vs.take(i + 1).drop_last() =~= vs.take(i as int));
            }
            i += 1;
        }
        proof {
            assert(vs.take(insert.len() as int) =~= vs);
        }
        self.resort();
    }

    /// Upserts a batch of rows: in the local view an update lands a row
    /// under its key whether or not the key was held before, exactly like an
    /// insert.
    pub fn update(&mut self, update: Vec<Record>)
        requires
            old(self).wf(),
        ensures
            final(self).wf(),
            final(self).sorting() == old(self).sorting(),
            final(self).key_map() == upsert_rows(old(self).key_map(), update.deep_view()),
    {
        self.extend_rows(update);
    }

    /// Removes a batch of keys; absent keys are ignored.
    pub fn delete(&mut self, keys: Vec<u64>)
        requires
            old(self).wf(),
        ensures
            final(self).wf(),
            final(self).sorting() == old(self).sorting(),
            final(self).key_map() == remove_keys(old(self).key_map(), keys.deep_view()),
    {
        let ghost ks = keys.deep_view();
        let mut i: usize = 0;
        proof {
            assert(ks.take(0) =~= Seq::<u64>::empty());
        }
        while i < keys.len()
            invariant
                i <= keys.len(),
                keys.deep_view() == ks,
                distinct_keys(self@),
                self.sorting() == old(self).sorting(),
                as_map(self@) == remove_keys(old(self).key_map(), ks.take(i as int)),
            decreases keys.len() - i,
        {
            let k = keys[i];
            proof {
                assert(k == ks[i as int]);
            }
            let ghost pre = self@;
            let found = position_of_key(&self.rows, k);
            match found {
                Some(at) => {
                    self.rows.remove(at);
                    proof {
                        assert(self@ =~= pre.remove(at as int));
                        lemma_remove_as_map(pre, at as int);
                    }
                },
                None => {
                    proof {
                        assert(as_map(pre).remove(ks[i as int]) =~= as_map(pre));
                    }
                },
            }
            proof {
                assert(ks.take(i + 1).drop_last() =~= ks.take(i as int));
            }
            i += 1;
        }
        proof {
            assert(ks.take(keys.len() as int) =~= ks);
        }
        self.resort();
    }

    /// Installs a new comparator and reorders the view under it.
    pub fn new_sorting_fn(&mut self, sorting_fn: SortBy)
        requires
            old(self).wf(),
        ensures
            final(self).wf(),
            final(self).sorting() == sorting_fn,
            final(self).key_map() == old(self).key_map(),
            final(self)@.to_multiset() == old(self)@.to_multiset(),
    {
        self.sorting = sorting_fn;
        self.resort();
    }

    /// How many rows the view holds.
    pub fn len(&self) -> (r: usize)
        ensures
            r == self@.len(),
    {
        self.rows.len()
    }

    pub fn is_empty(&self) -> (r: bool)
        ensures
            r == (self@.len() == 0),
    {
        self.rows.len() == 0
    }

    /// The keys of the view, in sorted order.
    pub fn keys(&self) -> (r: Vec<u64>)
        ensures
            r@ == seq_keys(self@),
    {
        let mut keys: Vec<u64> = Vec::new();
        let mut i: usize = 0;
        while i < self.rows.len()
            invariant
                i <= self.rows.len(),
                keys@ == seq_keys(self@).take(i as int),
            decreases self.rows.len() - i,
        {
            keys.push(self.rows[i].key);
            proof {
                assert(keys@ =~= seq_keys(self@).take(i as int + 1));
            }
            i += 1;
        }
        proof {
            assert(keys@ =~= seq_keys(self@));
        }
        keys
    }

    /// The row stored under a key, if any.
    pub fn get(&self, key: u64) -> (r: Option<Record>)
        requires
            self.wf(),
        ensures
            match r {
                Some(v) => self.key_map().dom().contains(key) && v@ == self.key_map()[key],
                None => !self.key_map().dom().contains(key),
            },
    {
        let found = position_of_key(&self.rows, key);
        match found {
            Some(at) => {
                let v = self.rows[at].clone();
                proof {
                    crate::lemma_as_map_index(self@, at as int);
                }
                Some(v)
            },
            None => None,
        }
    }

    /// All rows, cloned, in sorted order.
    pub fn cloned(&self) -> (r: Vec<Record>)
        ensures
            r.deep_view() == self@,
    {
        self.sorted()
    }

    /// The rows in comparator order.
    pub fn sorted(&self) -> (r: Vec<Record>)
        ensures
            r.deep_view() == self@,
    {
        let mut out: Vec<Record> = Vec::new();
        proof {
            assert(out.deep_view() =~= self@.take(0));
        }
        let mut i: usize = 0;
        while i < self.rows.len()
            invariant
                i <= self.rows.len(),
                out.deep_view() == self@.take(i as int),
            decreases self.rows.len() - i,
        {
            let v = self.rows[i].clone();
            proof {
                assert(v@ == self@[i as int]);
            }
            let ghost pre = out.deep_view();
            out.push(v);
            proof {
                assert(out.deep_view() =~= pre.push(v@));
                assert(out.deep_view() =~= self@.take(i as int + 1));
            }
            i += 1;
        }
        proof {
            assert(out.deep_view() =~= self@);
        }
        out
    }

    /// The `page`-th chunk of `per_page` rows of the sorted view, or absent
    /// when `per_page` is zero or the page lies past the end.
    pub fn page(&self, page: usize, per_page: usize) -> (r: Option<Vec<Record>>)
        ensures
            (per_page == 0 || page * per_page >= self@.len()) <==> r is None,
            r is Some ==> r->0.deep_view() == self@.subrange(
                (page * per_page) as int,
                if (page + 1) * per_page < self@.len() {
                    ((page + 1) * per_page) as int
                } else {
                    self@.len() as int
                },
            ),
    {
        if per_page == 0 {
            return None;
        }
        let len = self.rows.len();
        let start: usize = match page.checked_mul(per_page) {
            Some(start) => start,
            None => {
                return None;
            },
        };
        if start >= len {
            return None;
        }
        let end: usize = if per_page < len - start {
            start + per_page
        } else {
            len
        };
        proof {
            assert((page + 1) * per_page == page * per_page + per_page) by (nonlinear_arith);
        }
        let mut out: Vec<Record> = Vec::new();
        proof {
            assert(out.deep_view() =~= self@.subrange(start as int, start as int));
        }
        let mut i: usize = start;
        while i < end
            invariant
                start <= i <= end <= self.rows.len(),
                out.deep_view() == self@.subrange(start as int, i as int),
            decreases end - i,
        {
            let v = self.rows[i].clone();
            proof {
                assert(v@ == self@[i as int]);
            }
            let ghost pre = out.deep_view();
            out.push(v);
            proof {
                assert(out.deep_view() =~= pre.push(v@));
                assert(out.deep_view() =~= self@.subrange(start as int, i as int + 1));
            }
            i += 1;
        }
        proof {
            assert(end as int == if (page + 1) * per_page < self@.len() {
                ((page + 1) * per_page) as int
            } else {
                self@.len() as int
            });
        }
        Some(out)
    }
}

} // verus!
