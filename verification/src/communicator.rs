//! The client-facing handle: it submits queries and changes to the container
//! and maintains a local materialized view from what the container delivers.

pub mod data;

use vstd::prelude::*;

use crate::change::{upsert_rows, ChangeType, ChangeTypeV, ChangeV, DataChangeV};
use crate::communicator::data::Data;
use crate::container::storage::Storage;
use crate::container::DataContainer;
use crate::order::SortBy;
use crate::query::{DataQueryV, QueryType};
use crate::{Record, RecordV};

verus! {

/// A resolving change submission: the ticket its result is stored under.
#[derive(Clone, Copy, Debug)]
pub struct PendingChange {
    pub ticket: u64,
}

/// A resolving query submission: the ticket its result is stored under.
#[derive(Clone, Copy, Debug)]
pub struct PendingQuery {
    pub ticket: u64,
}

/// One delivered mutation folded into a local view.
pub open spec fn apply_deltas(m: Map<u64, RecordV>, cs: Seq<DataChangeV>) -> Map<u64, RecordV>
    decreases cs.len(),
{
    if cs.len() == 0 {
        m
    } else {
        cs.last().apply_to_view(apply_deltas(m, cs.drop_last()))
    }
}

/// Delivered query replies folded into a local view, oldest first.
pub open spec fn apply_fresh(m: Map<u64, RecordV>, fs: Seq<Seq<RecordV>>) -> Map<u64, RecordV>
    decreases fs.len(),
{
    if fs.len() == 0 {
        m
    } else {
        upsert_rows(apply_fresh(m, fs.drop_last()), fs.last())
    }
}

/// The handle through which one client views and changes the shared data.
pub struct Communicator {
    uuid: u64,
    pub data: Data,
    has_changed: bool,
}

impl Communicator {
    /// The client's id.
    pub closed spec fn uuid(&self) -> u64 {
        self.uuid
    }

    /// Whether something was delivered since the view was last marked seen.
    pub closed spec fn spec_has_changed(&self) -> bool {
        self.has_changed
    }

    /// The local view as a key-to-row map.
    pub closed spec fn local_map(&self) -> Map<u64, RecordV> {
        self.data.key_map()
    }

    pub closed spec fn wf(&self) -> bool {
        self.data.wf()
    }

    /// The rows of the local view, in comparator order.
    pub closed spec fn local_rows(&self) -> Seq<RecordV> {
        self.data@
    }

    /// The comparator ordering the local view.
    pub closed spec fn sorting(&self) -> SortBy {
        self.data.sorting()
    }

    pub(crate) fn new(uuid: u64) -> (r: Self)
        ensures
            r.wf(),
            r.uuid() == uuid,
            r.local_map() == Map::<u64, RecordV>::empty(),
            r.local_rows() == Seq::<RecordV>::empty(),
            r.spec_has_changed(),
    {
        let r = Communicator { uuid, data: Data::new(), has_changed: true };
        proof {
            assert(crate::as_map(Seq::<RecordV>::empty()) =~= Map::<u64, RecordV>::empty());
        }
        r
    }

    /// Drains both mailboxes and folds every delivered mutation and reply
    /// into the local view, oldest first; raises the dirty flag if anything
    /// arrived.
    pub fn state_update<W: Storage>(&mut self, cont: &mut DataContainer<W>)
        requires
            old(self).wf(),
            old(cont).wf(),
        ensures
            final(self).wf(),
            final(cont).wf(),
            ({
                let boxes = old(cont).boxes();
                let delivered_changes: Seq<DataChangeV> = if crate::container::update_sender::has_box(
                    boxes,
                    old(self).uuid(),
                ) {
                    crate::container::update_sender::box_of(boxes, old(self).uuid()).changes
                } else {
                    Seq::empty()
                };
                let delivered_fresh: Seq<Seq<RecordV>> = if crate::container::update_sender::has_box(
                    boxes,
                    old(self).uuid(),
                ) {
                    crate::container::update_sender::box_of(boxes, old(self).uuid()).fresh
                } else {
                    Seq::empty()
                };
                &&& final(self).local_map() == apply_fresh(
                    apply_deltas(old(self).local_map(), delivered_changes),
                    delivered_fresh,
                )
                &&& final(self).spec_has_changed() == (old(self).spec_has_changed()
                    || delivered_changes.len() > 0 || delivered_fresh.len() > 0)
                &&& final(self).sorting() == old(self).sorting()
            }),
            final(self).uuid() == old(self).uuid(),
            final(cont).registry() == old(cont).registry(),
            final(cont).pending_sends() == old(cont).pending_sends(),
            final(cont).submitted_changes() == old(cont).submitted_changes(),
            final(cont).submitted_queries() == old(cont).submitted_queries(),
            final(cont).running() == old(cont).running(),
            final(cont).storage_contents() == old(cont).storage_contents(),
            final(cont).next_tick() == old(cont).next_tick(),
            final(cont).next_comm() == old(cont).next_comm(),
    {
        let (changes, fresh) = cont.take_mail(self.uuid);
        let ghost cs = changes.deep_view();
        let ghost fs = fresh.deep_view();
        let got_any = changes.len() > 0 || fresh.len() > 0;
        let ghost m0 = self.local_map();
        let n = changes.len();
        proof {
            assert(cs.len() == n as int);
            assert(cs.take(0) =~= Seq::<DataChangeV>::empty());
        }
        let mut i: usize = 0;
        let mut changes = changes;
        while changes.len() > 0
            invariant
                cs.len() == n as int,
                i <= cs.len(),
                changes.deep_view() == cs.subrange(i as int, cs.len() as int),
                self.wf(),
                self.uuid() == old(self).uuid(),
                self.spec_has_changed() == old(self).spec_has_changed(),
                self.data.sorting() == old(self).data.sorting(),
                self.local_map() == apply_deltas(m0, cs.take(i as int)),
            decreases changes.len(),
        {
            proof {
                assert(changes.deep_view().len() == changes@.len());
                assert(changes.deep_view().len() == cs.len() - i);
            }
            let ghost tpre = changes.deep_view();
            let dc = changes.remove(0);
            proof {
                assert(dc.deep_view() == tpre[0]);
                assert(tpre[0] == cs.subrange(i as int, cs.len() as int)[0]);
                assert forall|t2: int|
                    0 <= t2 < changes.deep_view().len() implies changes.deep_view()[t2] == cs[i + 1
                    + t2] by {
                    assert(changes.deep_view()[t2] == tpre[t2 + 1]);
                    assert(tpre[t2 + 1] == cs.subrange(i as int, cs.len() as int)[t2 + 1]);
                }
                assert(changes.deep_view() =~= cs.subrange(i + 1, cs.len() as int));
            }
            self.data.update_data(dc);
            proof {
                assert(cs.take(i + 1).drop_last() =~= cs.take(i as int));
                assert(cs.take(i + 1).last() == cs[i as int]);
            }
            i += 1;
        }
        proof {
            assert(cs.take(cs.len() as int) =~= cs);
        }
        let m = fresh.len();
        proof {
            assert(fs.len() == m as int);
            assert(fs.take(0) =~= Seq::<Seq<RecordV>>::empty());
        }
        let mut j: usize = 0;
        let mut fresh = fresh;
        while fresh.len() > 0
            invariant
                fs.len() == m as int,
                j <= fs.len(),
                fresh.deep_view() == fs.subrange(j as int, fs.len() as int),
                self.wf(),
                self.uuid() == old(self).uuid(),
                self.spec_has_changed() == old(self).spec_has_changed(),
                self.data.sorting() == old(self).data.sorting(),
                self.local_map() == apply_fresh(apply_deltas(m0, cs), fs.take(j as int)),
            decreases fresh.len(),
        {
            proof {
                assert(fresh.deep_view().len() == fresh@.len());
                assert(fresh.deep_view().len() == fs.len() - j);
            }
            let ghost tpre = fresh.deep_view();
            let f = fresh.remove(0);
            proof {
                assert(f.deep_view() == tpre[0]);
                assert(tpre[0] == fs.subrange(j as int, fs.len() as int)[0]);
                assert forall|t2: int|
                    0 <= t2 < fresh.deep_view().len() implies fresh.deep_view()[t2] == fs[j + 1
                    + t2] by {
                    assert(fresh.deep_view()[t2] == tpre[t2 + 1]);
                    assert(tpre[t2 + 1] == fs.subrange(j as int, fs.len() as int)[t2 + 1]);
                }
                assert(fresh.deep_view() =~= fs.subrange(j + 1, fs.len() as int));
            }
            self.data.add_fresh_data(f);
            proof {
                assert(fs.take(j + 1).drop_last() =~= fs.take(j as int));
                assert(fs.take(j + 1).last() == fs[j as int]);
            }
            j += 1;
        }
        proof {
            assert(fs.take(fs.len() as int) =~= fs);
        }
        if got_any {
            self.has_changed = true;
        }
    }

    /// Submits a query; the container records it as this client's standing
    /// query when it drains the intake.
    pub fn query<W: Storage>(&self, cont: &mut DataContainer<W>, query_type: QueryType) -> (r:
        PendingQuery)
        requires
            old(cont).wf(),
            old(cont).next_tick() < u64::MAX,
        ensures
            final(cont).wf(),
            r.ticket == old(cont).next_tick(),
            final(cont).submitted_queries() == old(cont).submitted_queries().push(
                DataQueryV {
                    ticket: r.ticket,
                    origin_uuid: self.uuid(),
                    query_type: query_type.deep_view(),
                },
            ),
            final(cont).submitted_changes() == old(cont).submitted_changes(),
            final(cont).registry() == old(cont).registry(),
            final(cont).boxes() == old(cont).boxes(),
            final(cont).pending_sends() == old(cont).pending_sends(),
            final(cont).running() == old(cont).running(),
            final(cont).storage_contents() == old(cont).storage_contents(),
            final(cont).next_tick() == old(cont).next_tick() + 1,
    {
        let ticket = cont.submit_query(self.uuid, query_type);
        PendingQuery { ticket }
    }

    /// Submits an insert of one row.
    pub fn insert<W: Storage>(&self, cont: &mut DataContainer<W>, val: Record) -> (r:
        PendingChange)
        requires
            old(cont).wf(),
            old(cont).next_tick() < u64::MAX,
        ensures
            final(cont).wf(),
            r.ticket == old(cont).next_tick(),
            final(cont).submitted_changes() == old(cont).submitted_changes().push(
                ChangeV { ticket: r.ticket, action: ChangeTypeV::Insert(val@) },
            ),
            unchanged_but_changes(*old(cont), *final(cont)),
    {
        let ticket = cont.submit_change(ChangeType::Insert(val));
        PendingChange { ticket }
    }

    /// Submits an insert of a batch of rows.
    pub fn insert_many<W: Storage>(&self, cont: &mut DataContainer<W>, vals: Vec<Record>) -> (r:
        PendingChange)
        requires
            old(cont).wf(),
            old(cont).next_tick() < u64::MAX,
        ensures
            final(cont).wf(),
            r.ticket == old(cont).next_tick(),
            final(cont).submitted_changes() == old(cont).submitted_changes().push(
                ChangeV { ticket: r.ticket, action: ChangeTypeV::InsertMany(vals.deep_view()) },
            ),
            unchanged_but_changes(*old(cont), *final(cont)),
    {
        let ticket = cont.submit_change(ChangeType::InsertMany(vals));
        PendingChange { ticket }
    }

    /// Submits an update of one row.
    pub fn update<W: Storage>(&self, cont: &mut DataContainer<W>, val: Record) -> (r:
        PendingChange)
        requires
            old(cont).wf(),
            old(cont).next_tick() < u64::MAX,
        ensures
            final(cont).wf(),
            r.ticket == old(cont).next_tick(),
            final(cont).submitted_changes() == old(cont).submitted_changes().push(
                ChangeV { ticket: r.ticket, action: ChangeTypeV::Update(val@) },
            ),
            unchanged_but_changes(*old(cont), *final(cont)),
    {
        let ticket = cont.submit_change(ChangeType::Update(val));
        PendingChange { ticket }
    }

    /// Submits an update of a batch of rows.
    pub fn update_many<W: Storage>(&self, cont: &mut DataContainer<W>, vals: Vec<Record>) -> (r:
        PendingChange)
        requires
            old(cont).wf(),
            old(cont).next_tick() < u64::MAX,
        ensures
            final(cont).wf(),
            r.ticket == old(cont).next_tick(),
            final(cont).submitted_changes() == old(cont).submitted_changes().push(
                ChangeV { ticket: r.ticket, action: ChangeTypeV::UpdateMany(vals.deep_view()) },
            ),
            unchanged_but_changes(*old(cont), *final(cont)),
    {
        let ticket = cont.submit_change(ChangeType::UpdateMany(vals));
        PendingChange { ticket }
    }

    /// Submits a delete of one key.
    pub fn delete<W: Storage>(&self, cont: &mut DataContainer<W>, key: u64) -> (r: PendingChange)
        requires
            old(cont).wf(),
            old(cont).next_tick() < u64::MAX,
        ensures
            final(cont).wf(),
            r.ticket == old(cont).next_tick(),
            final(cont).submitted_changes() == old(cont).submitted_changes().push(
                ChangeV { ticket: r.ticket, action: ChangeTypeV::Delete(key) },
            ),
            unchanged_but_changes(*old(cont), *final(cont)),
    {
        let ticket = cont.submit_change(ChangeType::Delete(key));
        PendingChange { ticket }
    }

    /// Submits a delete of a batch of keys.
    pub fn delete_many<W: Storage>(&self, cont: &mut DataContainer<W>, keys: Vec<u64>) -> (r:
        PendingChange)
        requires
            old(cont).wf(),
            old(cont).next_tick() < u64::MAX,
        ensures
            final(cont).wf(),
            r.ticket == old(cont).next_tick(),
            final(cont).submitted_changes() == old(cont).submitted_changes().push(
                ChangeV { ticket: r.ticket, action: ChangeTypeV::DeleteMany(keys.deep_view()) },
            ),
            unchanged_but_changes(*old(cont), *final(cont)),
    {
        let ticket = cont.submit_change(ChangeType::DeleteMany(keys));
        PendingChange { ticket }
    }

    /// Whether the view changed since it was last marked seen.
    pub fn has_changed(&self) -> (r: bool)
        ensures
            r == self.spec_has_changed(),
    {
        self.has_changed
    }

    /// Marks the view as seen.
    pub fn set_viewed(&mut self)
        ensures
            !final(self).spec_has_changed(),
            final(self).wf() == old(self).wf(),
            final(self).uuid() == old(self).uuid(),
            final(self).local_rows() == old(self).local_rows(),
            final(self).local_map() == old(self).local_map(),
            final(self).sorting() == old(self).sorting(),
    {
        self.has_changed = false;
    }

    /// Whether the local view holds no rows.
    pub fn is_empty(&self) -> (r: bool)
        ensures
            r == (self.local_rows().len() == 0),
            r == (self.local_map() == Map::<u64, RecordV>::empty()),
    {
        let r = self.data.is_empty();
        proof {
            if self.local_rows().len() == 0 {
                assert(self.local_map() =~= Map::<u64, RecordV>::empty());
            } else {
                assert(crate::has_key(self.local_rows(), self.local_rows()[0].key));
                assert(self.local_map().dom().contains(self.local_rows()[0].key));
            }
        }
        r
    }

    /// Installs a comparator for the sorted view.
    pub fn sort(&mut self, sorting_fn: SortBy)
        requires
            old(self).wf(),
        ensures
            final(self).wf(),
            final(self).sorting() == sorting_fn,
            final(self).local_map() == old(self).local_map(),
            final(self).local_rows().to_multiset() == old(self).local_rows().to_multiset(),
            crate::order::sorted_by(final(self).local_rows(), sorting_fn),
            crate::distinct_keys(final(self).local_rows()),
            final(self).uuid() == old(self).uuid(),
            final(self).spec_has_changed() == old(self).spec_has_changed(),
    {
        self.data.new_sorting_fn(sorting_fn);
    }

    /// The client's id.
    pub fn id(&self) -> (r: u64)
        ensures
            r == self.uuid(),
    {
        self.uuid
    }

    /// A snapshot of every row in the local view, in comparator order.
    pub fn data(&self) -> (r: Vec<Record>)
        ensures
            r.deep_view() == self.local_rows(),
    {
        self.data.cloned()
    }

}

/// Everything of the container except the change intake and the ticket
/// counter is untouched by a change submission.
pub open spec fn unchanged_but_changes<W: Storage>(
    pre: DataContainer<W>,
    post: DataContainer<W>,
) -> bool {
    &&& post.submitted_queries() == pre.submitted_queries()
    &&& post.registry() == pre.registry()
    &&& post.boxes() == pre.boxes()
    &&& post.pending_sends() == pre.pending_sends()
    &&& post.running() == pre.running()
    &&& post.storage_contents() == pre.storage_contents()
    &&& post.next_tick() == pre.next_tick() + 1
}

} // verus!
