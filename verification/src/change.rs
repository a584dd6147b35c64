//! Change requests, the mutations they give rise to, and their results.

use vstd::prelude::*;

use crate::{Record, RecordV};

verus! {

/// A change request as submitted by a client: what to do to the store.
#[derive(Clone, Debug)]
pub enum ChangeType {
    Insert(Record),
    InsertMany(Vec<Record>),
    Update(Record),
    UpdateMany(Vec<Record>),
    Delete(u64),
    DeleteMany(Vec<u64>),
}

/// Ghost mirror of a [`ChangeType`].
pub ghost enum ChangeTypeV {
    Insert(RecordV),
    InsertMany(Seq<RecordV>),
    Update(RecordV),
    UpdateMany(Seq<RecordV>),
    Delete(u64),
    DeleteMany(Seq<u64>),
}

impl DeepView for ChangeType {
    type V = ChangeTypeV;

    open spec fn deep_view(&self) -> ChangeTypeV {
        match self {
            ChangeType::Insert(v) => ChangeTypeV::Insert(v@),
            ChangeType::InsertMany(vs) => ChangeTypeV::InsertMany(vs.deep_view()),
            ChangeType::Update(v) => ChangeTypeV::Update(v@),
            ChangeType::UpdateMany(vs) => ChangeTypeV::UpdateMany(vs.deep_view()),
            ChangeType::Delete(k) => ChangeTypeV::Delete(*k),
            ChangeType::DeleteMany(ks) => ChangeTypeV::DeleteMany(ks.deep_view()),
        }
    }
}

impl ChangeTypeV {
    /// Whether the request is one of the `..Many` forms with no elements.
    pub open spec fn is_empty(self) -> bool {
        match self {
            ChangeTypeV::InsertMany(vs) => vs.len() == 0,
            ChangeTypeV::UpdateMany(vs) => vs.len() == 0,
            ChangeTypeV::DeleteMany(ks) => ks.len() == 0,
            _ => false,
        }
    }

    /// The raw mutation that a successful run of this request produces.
    pub open spec fn delta(self) -> DataChangeV {
        match self {
            ChangeTypeV::Insert(v) => DataChangeV::Insert(seq![v]),
            ChangeTypeV::InsertMany(vs) => DataChangeV::Insert(vs),
            ChangeTypeV::Update(v) => DataChangeV::Update(seq![v]),
            ChangeTypeV::UpdateMany(vs) => DataChangeV::Update(vs),
            ChangeTypeV::Delete(k) => DataChangeV::Delete(seq![k]),
            ChangeTypeV::DeleteMany(ks) => DataChangeV::Delete(ks),
        }
    }
}

impl ChangeType {
    /// True exactly for an `InsertMany`, `UpdateMany` or `DeleteMany` with no
    /// elements; such a request is short-circuited without reaching storage.
    pub fn is_empty(&self) -> (r: bool)
        ensures
            r == self.deep_view().is_empty(),
    {
        match self {
            ChangeType::InsertMany(vals) => vals.len() == 0,
            ChangeType::UpdateMany(vals) => vals.len() == 0,
            ChangeType::DeleteMany(vals) => vals.len() == 0,
            _ => false,
        }
    }
}

/// A raw mutation: the batch of rows an executed change touched.
#[derive(Clone, Debug)]
pub enum DataChange {
    Insert(Vec<Record>),
    Update(Vec<Record>),
    Delete(Vec<u64>),
}

/// Ghost mirror of a [`DataChange`].
pub ghost enum DataChangeV {
    Insert(Seq<RecordV>),
    Update(Seq<RecordV>),
    Delete(Seq<u64>),
}

impl DeepView for DataChange {
    type V = DataChangeV;

    open spec fn deep_view(&self) -> DataChangeV {
        match self {
            DataChange::Insert(vs) => DataChangeV::Insert(vs.deep_view()),
            DataChange::Update(vs) => DataChangeV::Update(vs.deep_view()),
            DataChange::Delete(ks) => DataChangeV::Delete(ks.deep_view()),
        }
    }
}

impl DataChangeV {
    /// The keys touched by the mutation, in batch order.
    pub open spec fn keys(self) -> Seq<u64> {
        match self {
            DataChangeV::Insert(vs) => vs.map_values(|r: RecordV| r.key),
            DataChangeV::Update(vs) => vs.map_values(|r: RecordV| r.key),
            DataChangeV::Delete(ks) => ks,
        }
    }

    /// How many rows the mutation touches.
    pub open spec fn len(self) -> nat {
        match self {
            DataChangeV::Insert(vs) => vs.len(),
            DataChangeV::Update(vs) => vs.len(),
            DataChangeV::Delete(ks) => ks.len(),
        }
    }

    pub open spec fn is_empty(self) -> bool {
        self.len() == 0
    }

    pub open spec fn is_insert(self) -> bool {
        self is Insert
    }

    pub open spec fn is_update(self) -> bool {
        self is Update
    }

    pub open spec fn is_delete(self) -> bool {
        self is Delete
    }
}

impl DataChange {
    pub fn empty_insert() -> (r: Self)
        ensures
            r.deep_view() == DataChangeV::Insert(Seq::<RecordV>::empty()),
    {
        let r = DataChange::Insert(Vec::new());
        proof {
            assert(r.deep_view()->Insert_0 =~= Seq::<RecordV>::empty());
        }
        r
    }

    pub fn empty_update() -> (r: Self)
        ensures
            r.deep_view() == DataChangeV::Update(Seq::<RecordV>::empty()),
    {
        let r = DataChange::Update(Vec::new());
        proof {
            assert(r.deep_view()->Update_0 =~= Seq::<RecordV>::empty());
        }
        r
    }

    pub fn empty_delete() -> (r: Self)
        ensures
            r.deep_view() == DataChangeV::Delete(Seq::<u64>::empty()),
    {
        let r = DataChange::Delete(Vec::new());
        proof {
            assert(r.deep_view()->Delete_0 =~= Seq::<u64>::empty());
        }
        r
    }

    /// The keys the mutation touches, in batch order.
    pub fn value_keys(&self) -> (r: Vec<u64>)
        ensures
            r@ == self.deep_view().keys(),
    {
        match self {
            DataChange::Insert(values) | DataChange::Update(values) => {
                let mut keys: Vec<u64> = Vec::new();
                let mut i: usize = 0;
                while i < values.len()
                    invariant
                        i <= values.len(),
                        keys@ == values.deep_view().map_values(|r: RecordV| r.key).take(i as int),
                    decreases values.len() - i,
                {
                    keys.push(values[i].key);
                    proof {
                        assert(keys@ =~= values.deep_view().map_values(|r: RecordV| r.key).take(
                            i as int + 1,
                        ));
                    }
                    i += 1;
                }
                proof {
                    assert(keys@ =~= values.deep_view().map_values(|r: RecordV| r.key));
                }
                keys
            },
            DataChange::Delete(ks) => {
                let mut keys: Vec<u64> = Vec::new();
                let mut i: usize = 0;
                while i < ks.len()
                    invariant
                        i <= ks.len(),
                        keys@ == ks.deep_view().take(i as int),
                    decreases ks.len() - i,
                {
                    keys.push(ks[i]);
                    proof {
                        assert(keys@ =~= ks.deep_view().take(i as int + 1));
                    }
                    i += 1;
                }
                proof {
                    assert(keys@ =~= ks.deep_view());
                }
                keys
            },
        }
    }

    pub fn len(&self) -> (r: usize)
        ensures
            r == self.deep_view().len(),
    {
        match self {
            DataChange::Insert(values) => values.len(),
            DataChange::Update(values) => values.len(),
            DataChange::Delete(keys) => keys.len(),
        }
    }

    pub fn is_empty(&self) -> (r: bool)
        ensures
            r == self.deep_view().is_empty(),
    {
        self.len() == 0
    }

    pub fn is_insert(&self) -> (r: bool)
        ensures
            r == self.deep_view().is_insert(),
    {
        matches!(self, DataChange::Insert(_))
    }

    pub fn is_update(&self) -> (r: bool)
        ensures
            r == self.deep_view().is_update(),
    {
        matches!(self, DataChange::Update(_))
    }

    pub fn is_delete(&self) -> (r: bool)
        ensures
            r == self.deep_view().is_delete(),
    {
        matches!(self, DataChange::Delete(_))
    }

    /// The raw mutation a successful change of the given type produces.
    pub fn from_type(value: ChangeType) -> (r: Self)
        ensures
            r.deep_view() == value.deep_view().delta(),
    {
        match value {
            ChangeType::Insert(val) => {
                let mut v: Vec<Record> = Vec::new();
                v.push(val);
                let r = DataChange::Insert(v);
                proof {
                    assert(r.deep_view()->Insert_0 =~= seq![val@]);
                }
                r
            },
            ChangeType::InsertMany(vals) => DataChange::Insert(vals),
            ChangeType::Update(val) => {
                let mut v: Vec<Record> = Vec::new();
                v.push(val);
                let r = DataChange::Update(v);
                proof {
                    assert(r.deep_view()->Update_0 =~= seq![val@]);
                }
                r
            },
            ChangeType::UpdateMany(vals) => DataChange::Update(vals),
            ChangeType::Delete(key) => {
                let mut v: Vec<u64> = Vec::new();
                v.push(key);
                let r = DataChange::Delete(v);
                proof {
                    assert(r.deep_view()->Delete_0 =~= seq![key]);
                }
                r
            },
            ChangeType::DeleteMany(keys) => DataChange::Delete(keys),
        }
    }
}

/// Upserts each row in order: every row lands in the map under its key,
/// replacing what was there.
pub open spec fn upsert_rows(m: Map<u64, RecordV>, vs: Seq<RecordV>) -> Map<u64, RecordV>
    decreases vs.len(),
{
    if vs.len() == 0 {
        m
    } else {
        upsert_rows(m, vs.drop_last()).insert(vs.last().key, vs.last())
    }
}

/// Updates each row in order, touching only keys already present.
pub open spec fn update_rows(m: Map<u64, RecordV>, vs: Seq<RecordV>) -> Map<u64, RecordV>
    decreases vs.len(),
{
    if vs.len() == 0 {
        m
    } else {
        let m1 = update_rows(m, vs.drop_last());
        if m1.dom().contains(vs.last().key) {
            m1.insert(vs.last().key, vs.last())
        } else {
            m1
        }
    }
}

/// Removes each key in order.
pub open spec fn remove_keys(m: Map<u64, RecordV>, ks: Seq<u64>) -> Map<u64, RecordV>
    decreases ks.len(),
{
    if ks.len() == 0 {
        m
    } else {
        remove_keys(m, ks.drop_last()).remove(ks.last())
    }
}

impl DataChangeV {
    /// The effect of the mutation on the authoritative store's map: inserts
    /// upsert, updates touch only keys the store already holds, deletes
    /// remove.
    pub open spec fn apply_to_store(self, m: Map<u64, RecordV>) -> Map<u64, RecordV> {
        match self {
            DataChangeV::Insert(vs) => upsert_rows(m, vs),
            DataChangeV::Update(vs) => update_rows(m, vs),
            DataChangeV::Delete(ks) => remove_keys(m, ks),
        }
    }

    /// The effect of the mutation on a client's local view: inserts and
    /// updates both upsert, deletes remove.
    pub open spec fn apply_to_view(self, m: Map<u64, RecordV>) -> Map<u64, RecordV> {
        match self {
            DataChangeV::Insert(vs) => upsert_rows(m, vs),
            DataChangeV::Update(vs) => upsert_rows(m, vs),
            DataChangeV::Delete(ks) => remove_keys(m, ks),
        }
    }
}

/// Why a change failed.
#[derive(Clone, Debug)]
pub enum ChangeError {
    DefaultError,
    DatabaseError(String),
    ChannelSendError(String),
    ChannelReciveError,
}

/// What a client's awaited change resolves to.
#[derive(Clone, Debug)]
pub enum ChangeResult {
    Success,
    Error(ChangeError),
}

/// What the storage hand-off produces for one change request: on success the
/// raw mutation to fan out, on failure the error to report.
pub enum ChangeResponse {
    Changed(DataChange),
    Failed(ChangeError),
}

impl ChangeResponse {
    /// The successful response of a short-circuited empty request: an empty
    /// mutation of the matching kind.
    pub fn empty_ok(change_type: &ChangeType) -> (r: Self)
        ensures
            r is Changed,
            r->Changed_0.deep_view().is_empty(),
            r->Changed_0.deep_view().is_insert() == (change_type is Insert || change_type
                is InsertMany),
            r->Changed_0.deep_view().is_update() == (change_type is Update || change_type
                is UpdateMany),
            r->Changed_0.deep_view().is_delete() == (change_type is Delete || change_type
                is DeleteMany),
    {
        match change_type {
            ChangeType::Insert(_) | ChangeType::InsertMany(_) => {
                Self::Changed(DataChange::empty_insert())
            },
            ChangeType::Update(_) | ChangeType::UpdateMany(_) => {
                Self::Changed(DataChange::empty_update())
            },
            ChangeType::Delete(_) | ChangeType::DeleteMany(_) => {
                Self::Changed(DataChange::empty_delete())
            },
        }
    }

    /// Turns what the storage reported into a response: success carries the mutation that the
    /// request itself describes.
    pub fn from_type_and_result(action_type: ChangeType, action_result: ChangeResult) -> (r: Self)
        ensures
            action_result is Success ==> r is Changed && r->Changed_0.deep_view()
                == action_type.deep_view().delta(),
            action_result is Error ==> r is Failed,
    {
        match action_result {
            ChangeResult::Success => Self::Changed(DataChange::from_type(action_type)),
            ChangeResult::Error(err) => Self::Failed(err),
        }
    }

    /// Splits the response into the optional mutation and the result that is
    /// replied to the submitting client.
    pub fn into_parts(self) -> (r: (Option<DataChange>, ChangeResult))
        ensures
            self is Changed ==> r.0 == Some(self->Changed_0) && r.1 is Success,
            self is Failed ==> r.0 is None && r.1 is Error,
    {
        match self {
            ChangeResponse::Changed(data) => (Some(data), ChangeResult::Success),
            ChangeResponse::Failed(err) => (None, ChangeResult::Error(err)),
        }
    }
}

/// A submitted change: the request together with the ticket under which the
/// result is replied.
pub struct Change {
    pub ticket: u64,
    pub action: ChangeType,
}

/// Ghost mirror of a [`Change`].
pub ghost struct ChangeV {
    pub ticket: u64,
    pub action: ChangeTypeV,
}

impl DeepView for Change {
    type V = ChangeV;

    open spec fn deep_view(&self) -> ChangeV {
        ChangeV { ticket: self.ticket, action: self.action.deep_view() }
    }
}

} // verus!
