//! The interest registry: what every registered client is known to hold and
//! what its standing query is, and the projection of a raw mutation onto the
//! part each client cares about.

use vstd::prelude::*;

use crate::change::{DataChange, DataChangeV};
use crate::query::{DataQuery, FreshData, QueryType, QueryTypeV};
use crate::{filter_rows, lemma_filter_rows_membership, seq_keys, Record, RecordV};

verus! {

/// What the registry records for one client: the keys it holds locally and
/// the last query it issued.
#[derive(Debug)]
pub struct Info {
    value_keys: Vec<u64>,
    last_query: Option<QueryType>,
}

/// Ghost mirror of an [`Info`]: the known keys as a set, the standing query.
pub ghost struct InfoV {
    pub known: Set<u64>,
    pub standing: Option<QueryTypeV>,
}

impl DeepView for Info {
    type V = InfoV;

    closed spec fn deep_view(&self) -> InfoV {
        InfoV {
            known: self.value_keys@.to_set(),
            standing: match self.last_query {
                Some(q) => Some(q.deep_view()),
                None => None,
            },
        }
    }
}

/// One registered client.
#[derive(Debug)]
pub struct CommEntry {
    pub id: u64,
    pub info: Info,
}

/// Ghost mirror of a [`CommEntry`].
pub ghost struct CommEntryV {
    pub id: u64,
    pub info: InfoV,
}

impl DeepView for CommEntry {
    type V = CommEntryV;

    open spec fn deep_view(&self) -> CommEntryV {
        CommEntryV { id: self.id, info: self.info.deep_view() }
    }
}

/// A mutation trimmed for one recipient.
#[derive(Debug)]
pub struct TargetedChange {
    pub target: u64,
    pub change: DataChange,
}

/// Ghost mirror of a [`TargetedChange`].
pub ghost struct TargetedChangeV {
    pub target: u64,
    pub change: DataChangeV,
}

impl DeepView for TargetedChange {
    type V = TargetedChangeV;

    open spec fn deep_view(&self) -> TargetedChangeV {
        TargetedChangeV { target: self.target, change: self.change.deep_view() }
    }
}

/// The keys of the sequence that lie in the kept set, in order.
pub open spec fn filter_keys(ks: Seq<u64>, keep: Set<u64>) -> Seq<u64>
    decreases ks.len(),
{
    if ks.len() == 0 {
        Seq::empty()
    } else {
        let rest = filter_keys(ks.drop_last(), keep);
        if keep.contains(ks.last()) {
            rest.push(ks.last())
        } else {
            rest
        }
    }
}

/// Every filtered key was kept, and every kept key is filtered through.
pub proof fn lemma_filter_keys_membership(ks: Seq<u64>, keep: Set<u64>)
    ensures
        forall|t: int|
            0 <= t < filter_keys(ks, keep).len() ==> ks.contains(#[trigger] filter_keys(ks, keep)[t])
                && keep.contains(filter_keys(ks, keep)[t]),
        forall|t: int|
            0 <= t < ks.len() && keep.contains(#[trigger] ks[t]) ==> filter_keys(
                ks,
                keep,
            ).contains(ks[t]),
    decreases ks.len(),
{
    if ks.len() > 0 {
        let k0 = ks.drop_last();
        lemma_filter_keys_membership(k0, keep);
        assert forall|t: int|
            0 <= t < filter_keys(ks, keep).len() implies ks.contains(
            #[trigger] filter_keys(ks, keep)[t],
        ) && keep.contains(filter_keys(ks, keep)[t]) by {
            if t < filter_keys(k0, keep).len() {
                assert(filter_keys(ks, keep)[t] == filter_keys(k0, keep)[t]);
                let u = choose|u: int| 0 <= u < k0.len() && k0[u] == filter_keys(k0, keep)[t];
                assert(ks[u] == filter_keys(ks, keep)[t]);
            } else {
                assert(filter_keys(ks, keep)[t] == ks.last());
                assert(ks[ks.len() - 1] == ks.last());
            }
        }
        assert forall|t: int|
            0 <= t < ks.len() && keep.contains(#[trigger] ks[t]) implies filter_keys(
            ks,
            keep,
        ).contains(ks[t]) by {
            if t < ks.len() - 1 {
                assert(k0[t] == ks[t]);
                assert(filter_keys(k0, keep).contains(ks[t]));
                let u = choose|u: int|
                    0 <= u < filter_keys(k0, keep).len() && filter_keys(k0, keep)[u] == ks[t];
                assert(filter_keys(ks, keep)[u] == ks[t]);
            } else {
                assert(filter_keys(ks, keep).last() == ks.last());
            }
        }
    }
}

/// The condition under which an inserted row interests a client: it already
/// holds the row's key, or its standing query matches the row.
pub open spec fn insert_filter(info: InfoV) -> spec_fn(RecordV) -> bool {
    |r: RecordV|
        info.known.contains(r.key) || (match info.standing {
            Some(q) => q.applies(r),
            None => false,
        })
}

/// The condition under which an updated row interests a client: only keys it
/// already holds.
pub open spec fn update_filter(info: InfoV) -> spec_fn(RecordV) -> bool {
    |r: RecordV| info.known.contains(r.key)
}

/// The part of a raw mutation one client is interested in.
pub open spec fn project_delta(info: InfoV, dc: DataChangeV) -> DataChangeV {
    match dc {
        DataChangeV::Insert(vs) => DataChangeV::Insert(filter_rows(vs, insert_filter(info))),
        DataChangeV::Update(vs) => DataChangeV::Update(filter_rows(vs, update_filter(info))),
        DataChangeV::Delete(ks) => DataChangeV::Delete(filter_keys(ks, info.known)),
    }
}

/// The per-recipient deltas of a raw mutation, in registration order,
/// omitting every client whose projection is empty.
pub open spec fn interested(entries: Seq<CommEntryV>, dc: DataChangeV) -> Seq<TargetedChangeV>
    decreases entries.len(),
{
    if entries.len() == 0 {
        Seq::empty()
    } else {
        let rest = interested(entries.drop_last(), dc);
        let e = entries.last();
        let proj = project_delta(e.info, dc);
        if proj.is_empty() {
            rest
        } else {
            rest.push(TargetedChangeV { target: e.id, change: proj })
        }
    }
}

/// How a delivered delta moves a client's known keys: inserted and updated
/// keys are added, deleted keys are removed.
pub open spec fn known_after(known: Set<u64>, dc: DataChangeV) -> Set<u64> {
    match dc {
        DataChangeV::Insert(vs) => known + seq_keys(vs).to_set(),
        DataChangeV::Update(vs) => known + seq_keys(vs).to_set(),
        DataChangeV::Delete(ks) => known.difference(ks.to_set()),
    }
}

/// Whether a client is registered.
pub open spec fn registered(entries: Seq<CommEntryV>, id: u64) -> bool {
    exists|t: int| 0 <= t < entries.len() && entries[t].id == id
}

/// The position of a registered client.
pub open spec fn index_of_id(entries: Seq<CommEntryV>, id: u64) -> int {
    choose|t: int| 0 <= t < entries.len() && entries[t].id == id
}

/// The record of a registered client.
pub open spec fn info_of(entries: Seq<CommEntryV>, id: u64) -> InfoV {
    entries[index_of_id(entries, id)].info
}

/// No two entries share an id.
pub open spec fn distinct_ids(entries: Seq<CommEntryV>) -> bool {
    forall|i: int, j: int| 0 <= i < j < entries.len() ==> entries[i].id != entries[j].id
}

/// The registry: one record per registered client, in registration order.
#[derive(Debug)]
pub struct CommunicatorInfo {
    entries: Vec<CommEntry>,
}

impl View for CommunicatorInfo {
    type V = Seq<CommEntryV>;

    closed spec fn view(&self) -> Seq<CommEntryV> {
        self.entries.deep_view()
    }
}

impl CommunicatorInfo {
    pub open spec fn wf(self) -> bool {
        distinct_ids(self@)
    }

    pub fn new() -> (r: Self)
        ensures
            r.wf(),
            r@ == Seq::<CommEntryV>::empty(),
    {
        let r = CommunicatorInfo { entries: Vec::new() };
        proof {
            assert(r@ =~= Seq::<CommEntryV>::empty());
        }
        r
    }

    /// The position of the entry with the given id, if any.
    fn position_of(&self, id: u64) -> (r: Option<usize>)
        ensures
            match r {
                Some(i) => i < self@.len() && self@[i as int].id == id,
                None => !registered(self@, id),
            },
    {
        let mut i: usize = 0;
        while i < self.entries.len()
            invariant
                i <= self.entries.len(),
                forall|t: int| 0 <= t < i ==> self@[t].id != id,
            decreases self.entries.len() - i,
        {
            if self.entries[i].id == id {
                return Some(i);
            }
            i += 1;
        }
        None
    }

    /// Registers a new client with nothing known and no standing query.
    pub fn register_comm(&mut self, comm_uuid: u64)
        requires
            old(self).wf(),
            !registered(old(self)@, comm_uuid),
        ensures
            final(self).wf(),
            final(self)@ == old(self)@.push(
                CommEntryV {
                    id: comm_uuid,
                    info: InfoV { known: Set::empty(), standing: None },
                },
            ),
    {
        let ghost pre = self@;
        let entry = CommEntry {
            id: comm_uuid,
            info: Info { value_keys: Vec::new(), last_query: None },
        };
        proof {
            assert(entry.info.value_keys@.to_set() =~= Set::<u64>::empty());
        }
        self.entries.push(entry);
        proof {
            assert(self@ =~= pre.push(self@.last()));
            assert forall|x: int, y: int| 0 <= x < y < self@.len() implies self@[x].id
                != self@[y].id by {
                if y < pre.len() {
                    assert(self@[x] == pre[x] && self@[y] == pre[y]);
                } else {
                    assert(self@[x] == pre[x]);
                    assert(pre[x].id != comm_uuid);
                }
            }
        }
    }

    /// Removes a client's record, if present.
    pub fn remove_comm(&mut self, comm_uuid: u64)
        requires
            old(self).wf(),
        ensures
            final(self).wf(),
            registered(old(self)@, comm_uuid) ==> final(self)@ == old(self)@.remove(
                index_of_id(old(self)@, comm_uuid),
            ),
            !registered(old(self)@, comm_uuid) ==> final(self)@ == old(self)@,
    {
        let ghost pre = self@;
        let found = self.position_of(comm_uuid);
        match found {
            Some(at) => {
                self.entries.remove(at);
                proof {
                    assert(self@ =~= pre.remove(at as int));
                    let idx = index_of_id(pre, comm_uuid);
                    if idx != at {
                        assert(pre[idx].id == pre[at as int].id);
                        assert(false);
                    }
                    assert forall|x: int, y: int| 0 <= x < y < self@.len() implies self@[x].id
                        != self@[y].id by {
                        let px: int = if x < at {
                            x
                        } else {
                            x + 1
                        };
                        let py: int = if y < at {
                            y
                        } else {
                            y + 1
                        };
                        assert(self@[x] == pre[px] && self@[y] == pre[py]);
                    }
                }
            },
            None => {},
        }
    }

    /// Records a newly submitted query as the client's standing query.
    pub fn update_query(&mut self, query: &DataQuery)
        requires
            old(self).wf(),
        ensures
            final(self).wf(),
            registered(old(self)@, query.origin_uuid) ==> final(self)@ == old(self)@.update(
                index_of_id(old(self)@, query.origin_uuid),
                CommEntryV {
                    id: query.origin_uuid,
                    info: InfoV {
                        known: info_of(old(self)@, query.origin_uuid).known,
                        standing: Some(query.query_type.deep_view()),
                    },
                },
            ),
            !registered(old(self)@, query.origin_uuid) ==> final(self)@ == old(self)@,
    {
        let ghost pre = self@;
        let found = self.position_of(query.origin_uuid);
        match found {
            Some(at) => {
                let mut entry = self.entries.remove(at);
                entry.info.last_query = Some(query.query_type.clone());
                self.entries.insert(at, entry);
                proof {
                    let idx = index_of_id(pre, query.origin_uuid);
                    if idx != at {
                        assert(pre[idx].id == pre[at as int].id);
                        assert(false);
                    }
                    assert(self@ =~= pre.update(at as int, self@[at as int]));
                    assert(self@[at as int].info.known =~= pre[at as int].info.known);
                    lemma_update_id_preserves_wf(pre, at as int, self@[at as int]);
                }
            },
            None => {},
        }
    }

    /// Computes, for every registered client, the part of the mutation it is
    /// interested in; clients with an empty part are left out.
    pub fn get_interested_comm(&self, update: &DataChange) -> (r: Vec<TargetedChange>)
        ensures
            r.deep_view() == interested(self@, update.deep_view()),
    {
        let ghost dc = update.deep_view();
        let mut out: Vec<TargetedChange> = Vec::new();
        proof {
            assert(self@.take(0) =~= Seq::<CommEntryV>::empty());
            assert(out.deep_view() =~= interested(self@.take(0), dc));
        }
        let mut i: usize = 0;
        while i < self.entries.len()
            invariant
                i <= self.entries.len(),
                out.deep_view() == interested(self@.take(i as int), dc),
                dc == update.deep_view(),
            decreases self.entries.len() - i,
        {
            let proj = Self::project_change(&self.entries[i].info, update);
            proof {
                assert(self@.take(i + 1).drop_last() =~= self@.take(i as int));
                assert(self@.take(i + 1).last() == self@[i as int]);
            }
            if proj.len() > 0 {
                let ghost pre = out.deep_view();
                let t = TargetedChange { target: self.entries[i].id, change: proj };
                out.push(t);
                proof {
                    assert(out.deep_view() =~= pre.push(t.deep_view()));
                }
            }
            i += 1;
        }
        proof {
            assert(self@.take(self.entries.len() as int) =~= self@);
        }
        out
    }

    /// Trims a mutation to the rows one client is interested in.
    fn project_change(info: &Info, update: &DataChange) -> (r: DataChange)
        ensures
            r.deep_view() == project_delta(info.deep_view(), update.deep_view()),
    {
        match update {
            DataChange::Insert(values) => {
                let ghost vs = values.deep_view();
                let ghost f = insert_filter(info.deep_view());
                let mut picked: Vec<Record> = Vec::new();
                proof {
                    assert(vs.take(0) =~= Seq::<RecordV>::empty());
                    assert(picked.deep_view() =~= filter_rows(vs.take(0), f));
                }
                let mut i: usize = 0;
                while i < values.len()
                    invariant
                        i <= values.len(),
                        values.deep_view() == vs,
                        f == insert_filter(info.deep_view()),
                        picked.deep_view() == filter_rows(vs.take(i as int), f),
                    decreases values.len() - i,
                {
                    let v = &values[i];
                    proof {
                        assert(v@ == vs[i as int]);
                        assert(vs.take(i + 1).drop_last() =~= vs.take(i as int));
                        assert(vs.take(i + 1).last() == vs[i as int]);
                    }
                    let known = Self::known_contains(info, v.key);
                    let matches_query = match &info.last_query {
                        Some(q) => q.apply(v),
                        None => false,
                    };
                    if known || matches_query {
                        let c = v.clone();
                        let ghost pre = picked.deep_view();
                        picked.push(c);
                        proof {
                            assert(picked.deep_view() =~= pre.push(c@));
                        }
                    }
                    i += 1;
                }
                proof {
                    assert(vs.take(values.len() as int) =~= vs);
                }
                DataChange::Insert(picked)
            },
            DataChange::Update(values) => {
                let ghost vs = values.deep_view();
                let ghost f = update_filter(info.deep_view());
                let mut picked: Vec<Record> = Vec::new();
                proof {
                    assert(vs.take(0) =~= Seq::<RecordV>::empty());
                    assert(picked.deep_view() =~= filter_rows(vs.take(0), f));
                }
                let mut i: usize = 0;
                while i < values.len()
                    invariant
                        i <= values.len(),
                        values.deep_view() == vs,
                        f == update_filter(info.deep_view()),
                        picked.deep_view() == filter_rows(vs.take(i as int), f),
                    decreases values.len() - i,
                {
                    let v = &values[i];
                    proof {
                        assert(v@ == vs[i as int]);
                        assert(vs.take(i + 1).drop_last() =~= vs.take(i as int));
                        assert(vs.take(i + 1).last() == vs[i as int]);
                    }
                    if Self::known_contains(info, v.key) {
                        let c = v.clone();
                        let ghost pre = picked.deep_view();
                        picked.push(c);
                        proof {
                            assert(picked.deep_view() =~= pre.push(c@));
                        }
                    }
                    i += 1;
                }
                proof {
                    assert(vs.take(values.len() as int) =~= vs);
                }
                DataChange::Update(picked)
            },
            DataChange::Delete(keys) => {
                let ghost ks = keys.deep_view();
                let ghost keep = info.deep_view().known;
                let mut picked: Vec<u64> = Vec::new();
                proof {
                    assert(ks.take(0) =~= Seq::<u64>::empty());
                    assert(picked.deep_view() =~= filter_keys(ks.take(0), keep));
                }
                let mut i: usize = 0;
                while i < keys.len()
                    invariant
                        i <= keys.len(),
                        keys.deep_view() == ks,
                        keep == info.deep_view().known,
                        picked.deep_view() == filter_keys(ks.take(i as int), keep),
                    decreases keys.len() - i,
                {
                    let k = keys[i];
                    proof {
                        assert(k == ks[i as int]);
                        assert(ks.take(i + 1).drop_last() =~= ks.take(i as int));
                        assert(ks.take(i + 1).last() == ks[i as int]);
                    }
                    if Self::known_contains(info, k) {
                        let ghost pre = picked.deep_view();
                        picked.push(k);
                        proof {
                            assert(picked.deep_view() =~= pre.push(k));
                        }
                    }
                    i += 1;
                }
                proof {
                    assert(ks.take(keys.len() as int) =~= ks);
                }
                DataChange::Delete(picked)
            },
        }
    }

    /// Whether the client is known to hold the key.
    fn known_contains(info: &Info, key: u64) -> (r: bool)
        ensures
            r == info.deep_view().known.contains(key),
    {
        let mut i: usize = 0;
        while i < info.value_keys.len()
            invariant
                i <= info.value_keys.len(),
                forall|t: int| 0 <= t < i ==> info.value_keys@[t] != key,
            decreases info.value_keys.len() - i,
        {
            if info.value_keys[i] == key {
                proof {
                    assert(info.value_keys@.contains(key));
                }
                return true;
            }
            i += 1;
        }
        proof {
            if info.value_keys@.to_set().contains(key) {
                let t = choose|t: int|
                    0 <= t < info.value_keys@.len() && info.value_keys@[t] == key;
                assert(false);
            }
        }
        false
    }

    /// Folds a delivered delta into the client's known keys.
    pub fn update_info_from_change(&mut self, target: u64, update: &DataChange)
        requires
            old(self).wf(),
            registered(old(self)@, target),
        ensures
            final(self).wf(),
            final(self)@ == old(self)@.update(
                index_of_id(old(self)@, target),
                CommEntryV {
                    id: target,
                    info: InfoV {
                        known: known_after(
                            info_of(old(self)@, target).known,
                            update.deep_view(),
                        ),
                        standing: info_of(old(self)@, target).standing,
                    },
                },
            ),
    {
        let ghost pre = self@;
        let found = self.position_of(target);
        match found {
            Some(at) => {
                proof {
                    let idx = index_of_id(pre, target);
                    if idx != at {
                        assert(pre[idx].id == pre[at as int].id);
                        assert(false);
                    }
                }
                let mut entry = self.entries.remove(at);
                proof {
                    assert(entry.deep_view() == pre[at as int]);
                }
                match update {
                    DataChange::Insert(values) | DataChange::Update(values) => {
                        Self::add_keys(&mut entry.info, values);
                    },
                    DataChange::Delete(keys) => {
                        Self::drop_keys(&mut entry.info, keys);
                    },
                }
                self.entries.insert(at, entry);
                proof {
                    assert(self@ =~= pre.update(at as int, self@[at as int]));
                    lemma_update_id_preserves_wf(pre, at as int, self@[at as int]);
                }
            },
            None => {
                proof {
                    assert(false);
                }
            },
        }
    }

    /// Replaces the client's known keys with the keys of a query reply.
    pub fn update_info_from_query(&mut self, target: u64, fresh_data: &FreshData)
        requires
            old(self).wf(),
        ensures
            final(self).wf(),
            registered(old(self)@, target) ==> final(self)@ == old(self)@.update(
                index_of_id(old(self)@, target),
                CommEntryV {
                    id: target,
                    info: InfoV {
                        known: seq_keys(fresh_data@).to_set(),
                        standing: info_of(old(self)@, target).standing,
                    },
                },
            ),
            !registered(old(self)@, target) ==> final(self)@ == old(self)@,
    {
        let ghost pre = self@;
        let found = self.position_of(target);
        match found {
            Some(at) => {
                proof {
                    let idx = index_of_id(pre, target);
                    if idx != at {
                        assert(pre[idx].id == pre[at as int].id);
                        assert(false);
                    }
                }
                let mut entry = self.entries.remove(at);
                let keys = fresh_data.keys();
                entry.info.value_keys = keys;
                self.entries.insert(at, entry);
                proof {
                    assert(self@ =~= pre.update(at as int, self@[at as int]));
                    lemma_update_id_preserves_wf(pre, at as int, self@[at as int]);
                }
            },
            None => {},
        }
    }

    /// Adds the keys of the rows to the client's known set.
    fn add_keys(info: &mut Info, values: &Vec<Record>)
        ensures
            final(info).deep_view() == (InfoV {
                known: old(info).deep_view().known + seq_keys(values.deep_view()).to_set(),
                standing: old(info).deep_view().standing,
            }),
    {
        let ghost vs = values.deep_view();
        let ghost pre = info.deep_view().known;
        let mut i: usize = 0;
        proof {
            assert(seq_keys(vs.take(0)).to_set() =~= Set::<u64>::empty());
            assert(info.deep_view().known =~= pre + seq_keys(vs.take(0)).to_set());
        }
        while i < values.len()
            invariant
                i <= values.len(),
                values.deep_view() == vs,
                info.deep_view().standing == old(info).deep_view().standing,
                pre == old(info).deep_view().known,
                info.deep_view().known == pre + seq_keys(vs.take(i as int)).to_set(),
            decreases values.len() - i,
        {
            let ghost kpre = info.value_keys@;
            info.value_keys.push(values[i].key);
            proof {
                assert(info.value_keys@ =~= kpre.push(vs[i as int].key));
                lemma_push_to_set(kpre, vs[i as int].key);
                lemma_seq_keys_take_step(vs, i as int);
                assert(info.deep_view().known =~= pre + seq_keys(vs.take(i + 1)).to_set());
            }
            i += 1;
        }
        proof {
            assert(vs.take(values.len() as int) =~= vs);
        }
    }

    /// Removes the given keys from the client's known set.
    fn drop_keys(info: &mut Info, keys: &Vec<u64>)
        ensures
            final(info).deep_view() == (InfoV {
                known: old(info).deep_view().known.difference(keys.deep_view().to_set()),
                standing: old(info).deep_view().standing,
            }),
    {
        let ghost drop = keys.deep_view().to_set();
        let ghost pre = info.value_keys@;
        let mut kept: Vec<u64> = Vec::new();
        let mut i: usize = 0;
        while i < info.value_keys.len()
            invariant
                i <= info.value_keys.len(),
                info.value_keys@ == pre,
                drop == keys.deep_view().to_set(),
                forall|t: int|
                    0 <= t < kept@.len() ==> pre.take(i as int).contains(#[trigger] kept@[t])
                        && !drop.contains(kept@[t]),
                forall|t: int|
                    0 <= t < i && !drop.contains(#[trigger] pre[t]) ==> kept@.contains(pre[t]),
            decreases info.value_keys.len() - i,
        {
            let k = info.value_keys[i];
            let mut in_drop = false;
            let mut j: usize = 0;
            while j < keys.len()
                invariant
                    j <= keys.len(),
                    in_drop == keys.deep_view().take(j as int).contains(k),
                decreases keys.len() - j,
            {
                if keys[j] == k {
                    in_drop = true;
                    proof {
                        assert(keys.deep_view().take(j + 1)[j as int] == k);
                    }
                } else {
                    proof {
                        assert(keys.deep_view().take(j + 1).drop_last() =~= keys.deep_view().take(
                            j as int,
                        ));
                        if keys.deep_view().take(j + 1).contains(k) && !keys.deep_view().take(
                            j as int,
                        ).contains(k) {
                            let t = choose|t: int|
                                0 <= t < j + 1 && #[trigger] keys.deep_view().take(j + 1)[t] == k;
                            assert(t == j);
                            assert(keys.deep_view()[j as int] == k);
                            assert(false);
                        }
                        if keys.deep_view().take(j as int).contains(k) {
                            let t = choose|t: int|
                                0 <= t < j && #[trigger] keys.deep_view().take(j as int)[t] == k;
                            assert(keys.deep_view().take(j + 1)[t] == k);
                        }
                    }
                }
                j += 1;
            }
            proof {
                assert(keys.deep_view().take(keys.len() as int) =~= keys.deep_view());
                assert(in_drop == drop.contains(k));
            }
            if !in_drop {
                let ghost kpre = kept@;
                kept.push(k);
                proof {
                    assert(pre.take(i + 1)[i as int] == k);
                    assert forall|t: int|
                        0 <= t < kept@.len() implies pre.take(i + 1).contains(
                        #[trigger] kept@[t],
                    ) && !drop.contains(kept@[t]) by {
                        if t < kept@.len() - 1 {
                            assert(kept@[t] == kpre[t]);
                            let u = choose|u: int|
                                0 <= u < i && #[trigger] pre.take(i as int)[u] == kpre[t];
                            assert(pre.take(i + 1)[u] == kept@[t]);
                        } else {
                            assert(kept@[t] == k);
                            assert(pre.take(i + 1).contains(k));
                        }
                    }
                    assert forall|t: int|
                        0 <= t < i + 1 && !drop.contains(#[trigger] pre[t]) implies kept@.contains(
                        pre[t],
                    ) by {
                        if t < i {
                            let u = choose|u: int| 0 <= u < kpre.len() && kpre[u] == pre[t];
                            assert(kept@[u] == pre[t]);
                        } else {
                            assert(kept@[kept@.len() - 1] == pre[t]);
                        }
                    }
                }
            } else {
                proof {
                    assert forall|t: int|
                        0 <= t < kept@.len() implies pre.take(i + 1).contains(
                        #[trigger] kept@[t],
                    ) && !drop.contains(kept@[t]) by {
                        let u = choose|u: int|
                            0 <= u < i && #[trigger] pre.take(i as int)[u] == kept@[t];
                        assert(pre.take(i + 1)[u] == kept@[t]);
                    }
                }
            }
            i += 1;
        }
        proof {
            assert(pre.take(pre.len() as int) =~= pre);
        }
        info.value_keys = kept;
        proof {
            assert forall|x: u64|
                info.value_keys@.to_set().contains(x) <==> old(
                    info,
                ).deep_view().known.difference(drop).contains(x) by {
                if info.value_keys@.to_set().contains(x) {
                    let t = choose|t: int|
                        0 <= t < info.value_keys@.len() && info.value_keys@[t] == x;
                }
                if pre.to_set().contains(x) && !drop.contains(x) {
                    let t = choose|t: int| 0 <= t < pre.len() && pre[t] == x;
                }
            }
            assert(info.value_keys@.to_set() =~= old(info).deep_view().known.difference(drop));
        }
    }
}

/// Updating one entry in place, keeping its id, preserves distinct ids.
proof fn lemma_update_id_preserves_wf(s: Seq<CommEntryV>, i: int, e: CommEntryV)
    requires
        distinct_ids(s),
        0 <= i < s.len(),
        e.id == s[i].id,
    ensures
        distinct_ids(s.update(i, e)),
{
}

/// Pushing a key adds it to the set of a sequence.
proof fn lemma_push_to_set(s: Seq<u64>, k: u64)
    ensures
        s.push(k).to_set() == s.to_set().insert(k),
{
    assert forall|x: u64| s.push(k).contains(x) implies (s.contains(x) || x == k) by {
        let t = choose|t: int| 0 <= t < s.push(k).len() && s.push(k)[t] == x;
        if t < s.len() {
            assert(s[t] == x);
        }
    }
    assert forall|x: u64| s.contains(x) implies s.push(k).contains(x) by {
        let t = choose|t: int| 0 <= t < s.len() && s[t] == x;
        assert(s.push(k)[t] == x);
    }
    assert(s.push(k)[s.len() as int] == k);
    assert(s.push(k).contains(k));
    assert(s.push(k).to_set() =~= s.to_set().insert(k));
}

/// The keys of one more row extend the key set by that row's key.
proof fn lemma_seq_keys_take_step(vs: Seq<RecordV>, i: int)
    requires
        0 <= i < vs.len(),
    ensures
        seq_keys(vs.take(i + 1)).to_set() == seq_keys(vs.take(i)).to_set().insert(vs[i].key),
{
    assert(seq_keys(vs.take(i + 1)) =~= seq_keys(vs.take(i)).push(vs[i].key)) by {
        assert(vs.take(i + 1).drop_last() =~= vs.take(i));
    }
    lemma_push_to_set(seq_keys(vs.take(i)), vs[i].key);
}

/// Interest closure: every key of a delivered delta was already known to the
/// recipient, except that an inserted row may instead match the recipient's
/// standing query.
pub proof fn lemma_interest_closure(info: InfoV, dc: DataChangeV)
    ensures
        project_delta(info, dc) matches DataChangeV::Insert(vs) ==> forall|t: int|
            0 <= t < vs.len() ==> info.known.contains(#[trigger] vs[t].key) || (
            info.standing matches Some(q) && q.applies(vs[t])),
        project_delta(info, dc) matches DataChangeV::Update(vs) ==> forall|t: int|
            0 <= t < vs.len() ==> info.known.contains(#[trigger] vs[t].key),
        project_delta(info, dc) matches DataChangeV::Delete(ks) ==> forall|t: int|
            0 <= t < ks.len() ==> info.known.contains(#[trigger] ks[t]),
{
    match dc {
        DataChangeV::Insert(vs) => {
            lemma_filter_rows_membership(vs, insert_filter(info));
        },
        DataChangeV::Update(vs) => {
            lemma_filter_rows_membership(vs, update_filter(info));
        },
        DataChangeV::Delete(ks) => {
            lemma_filter_keys_membership(ks, info.known);
        },
    }
}

} // verus!
