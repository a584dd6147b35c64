//! Query requests, their results, and the fresh-data replies they produce.

use vstd::prelude::*;

use crate::text::{contains_seq, str_contains};
use crate::{as_map, distinct_keys, seq_keys, Record, RecordV};

verus! {

/// A pure row filter, kept as data so that it can be stored in an interest
/// record and re-evaluated on every later insert.
#[derive(Debug)]
pub enum Predicate {
    /// The row's text contains the given needle.
    ValContains(String),
    /// The row's text equals the given text.
    ValEquals(String),
    /// The row's key is at least the given key.
    KeyAtLeast(u64),
}

/// Ghost mirror of a [`Predicate`].
pub ghost enum PredicateV {
    ValContains(Seq<char>),
    ValEquals(Seq<char>),
    KeyAtLeast(u64),
}

impl DeepView for Predicate {
    type V = PredicateV;

    open spec fn deep_view(&self) -> PredicateV {
        match self {
            Predicate::ValContains(s) => PredicateV::ValContains(s@),
            Predicate::ValEquals(s) => PredicateV::ValEquals(s@),
            Predicate::KeyAtLeast(k) => PredicateV::KeyAtLeast(*k),
        }
    }
}

impl PredicateV {
    /// Whether the filter accepts the row.
    pub open spec fn accepts(self, r: RecordV) -> bool {
        match self {
            PredicateV::ValContains(s) => contains_seq(r.val, s),
            PredicateV::ValEquals(s) => r.val == s,
            PredicateV::KeyAtLeast(k) => r.key >= k,
        }
    }
}

impl Clone for Predicate {
    fn clone(&self) -> (r: Self)
        ensures
            r.deep_view() == self.deep_view(),
    {
        match self {
            Predicate::ValContains(s) => Predicate::ValContains(s.clone()),
            Predicate::ValEquals(s) => Predicate::ValEquals(s.clone()),
            Predicate::KeyAtLeast(k) => Predicate::KeyAtLeast(*k),
        }
    }
}

impl Predicate {
    /// Evaluates the filter on a row.
    pub fn eval(&self, value: &Record) -> (r: bool)
        ensures
            r == self.deep_view().accepts(value@),
    {
        match self {
            Predicate::ValContains(s) => str_contains(value.val.as_str(), s.as_str()),
            Predicate::ValEquals(s) => value.val == *s,
            Predicate::KeyAtLeast(k) => value.key >= *k,
        }
    }
}

/// What a client asks the store for.
#[derive(Debug)]
pub enum QueryType {
    All,
    GetById(u64),
    GetByIds(Vec<u64>),
    Predicate(Predicate),
}

/// Ghost mirror of a [`QueryType`].
pub ghost enum QueryTypeV {
    All,
    GetById(u64),
    GetByIds(Seq<u64>),
    Predicate(PredicateV),
}

impl DeepView for QueryType {
    type V = QueryTypeV;

    open spec fn deep_view(&self) -> QueryTypeV {
        match self {
            QueryType::All => QueryTypeV::All,
            QueryType::GetById(k) => QueryTypeV::GetById(*k),
            QueryType::GetByIds(ks) => QueryTypeV::GetByIds(ks.deep_view()),
            QueryType::Predicate(p) => QueryTypeV::Predicate(p.deep_view()),
        }
    }
}

impl QueryTypeV {
    /// Whether a row matches the query: `All` matches everything, the id
    /// forms match by key, and a predicate matches by its filter.
    pub open spec fn applies(self, r: RecordV) -> bool {
        match self {
            QueryTypeV::All => true,
            QueryTypeV::GetById(k) => k == r.key,
            QueryTypeV::GetByIds(ks) => ks.contains(r.key),
            QueryTypeV::Predicate(p) => p.accepts(r),
        }
    }
}

impl Clone for QueryType {
    fn clone(&self) -> (r: Self)
        ensures
            r.deep_view() == self.deep_view(),
    {
        match self {
            QueryType::All => QueryType::All,
            QueryType::GetById(k) => QueryType::GetById(*k),
            QueryType::GetByIds(ks) => {
                let r = QueryType::GetByIds(ks.clone());
                proof {
                    assert(r.deep_view()->GetByIds_0 =~= self.deep_view()->GetByIds_0);
                }
                r
            },
            QueryType::Predicate(p) => QueryType::Predicate(p.clone()),
        }
    }
}

impl QueryType {
    /// Whether the given row matches this query.
    pub fn apply(&self, value: &Record) -> (r: bool)
        ensures
            r == self.deep_view().applies(value@),
    {
        match self {
            QueryType::All => true,
            QueryType::GetById(key) => *key == value.key,
            QueryType::GetByIds(keys) => {
                let mut i: usize = 0;
                let mut found = false;
                while i < keys.len()
                    invariant
                        i <= keys.len(),
                        found == keys.deep_view().take(i as int).contains(value@.key),
                    decreases keys.len() - i,
                {
                    if keys[i] == value.key {
                        found = true;
                        proof {
                            assert(keys.deep_view().take(i + 1)[i as int] == value@.key);
                        }
                    }
                    proof {
                        assert(keys.deep_view().take(i + 1).drop_last() =~= keys.deep_view().take(
                            i as int,
                        ));
                        if keys.deep_view().take(i + 1).contains(value@.key)
                            && keys.deep_view()[i as int] != value@.key {
                            let t = choose|t: int|
                                0 <= t < i + 1 && #[trigger] keys.deep_view().take(i + 1)[t]
                                    == value@.key;
                            assert(keys.deep_view().take(i as int)[t] == value@.key);
                        }
                    }
                    i += 1;
                }
                proof {
                    assert(keys.deep_view().take(keys.len() as int) =~= keys.deep_view());
                }
                found
            },
            QueryType::Predicate(predicate) => predicate.eval(value),
        }
    }

    /// Builds a predicate query.
    pub fn predicate(pred: Predicate) -> (r: Self)
        ensures
            r.deep_view() == QueryTypeV::Predicate(pred.deep_view()),
    {
        Self::Predicate(pred)
    }
}

/// Why a query failed.
#[derive(Clone, Debug)]
pub enum QueryError {
    Default,
    NotPresent,
    ChannelSend(String),
    ChannelTrySend(String),
    ChannelRecive,
}

/// What a client's awaited query resolves to.
#[derive(Clone, Debug)]
pub enum QueryResult {
    Success,
    Error(QueryError),
}

/// The body of a successful query: a batch of current row snapshots, unique
/// by key.
#[derive(Debug)]
pub struct FreshData {
    rows: Vec<Record>,
}

impl View for FreshData {
    type V = Seq<RecordV>;

    closed spec fn view(&self) -> Seq<RecordV> {
        self.rows.deep_view()
    }
}

impl DeepView for FreshData {
    type V = Seq<RecordV>;

    open spec fn deep_view(&self) -> Seq<RecordV> {
        self@
    }
}

impl FreshData {
    /// The rows carry no duplicate keys.
    pub open spec fn wf(self) -> bool {
        distinct_keys(self@)
    }

    /// The snapshots as a map from key to row.
    pub open spec fn key_map(self) -> Map<u64, RecordV> {
        as_map(self@)
    }

    pub fn empty() -> (r: Self)
        ensures
            r.wf(),
            r@ == Seq::<RecordV>::empty(),
    {
        let r = FreshData { rows: Vec::new() };
        proof {
            assert(r@ =~= Seq::<RecordV>::empty());
        }
        r
    }

    /// Builds fresh data from one row snapshot.
    pub fn from_value(value: Record) -> (r: Self)
        ensures
            r.wf(),
            r@ == seq![value@],
    {
        let mut rows: Vec<Record> = Vec::new();
        rows.push(value);
        let r = FreshData { rows };
        proof {
            assert(r@ =~= seq![r.rows[0]@]);
        }
        r
    }

    /// Builds fresh data from a batch of rows; a later row with the same key
    /// replaces the earlier one.
    pub fn from_vec(values: Vec<Record>) -> (r: Self)
        ensures
            r.wf(),
            r.key_map() == fold_rows(values.deep_view()),
    {
        let mut out = FreshData { rows: Vec::new() };
        proof {
            assert(out@ =~= Seq::<RecordV>::empty());
            assert(out.key_map() =~= fold_rows(values.deep_view().take(0)));
        }
        let mut i: usize = 0;
        while i < values.len()
            invariant
                i <= values.len(),
                out.wf(),
                out.key_map() == fold_rows(values.deep_view().take(i as int)),
            decreases values.len() - i,
        {
            let v = values[i].clone();
            proof {
                assert(v@ == values.deep_view()[i as int]);
            }
            out.upsert(v);
            proof {
                assert(values.deep_view().take(i + 1).drop_last() =~= values.deep_view().take(
                    i as int,
                ));
                assert(values.deep_view().take(i + 1).last() == values.deep_view()[i as int]);
            }
            i += 1;
        }
        proof {
            assert(values.deep_view().take(values.len() as int) =~= values.deep_view());
        }
        out
    }

    /// Adds one snapshot, replacing any earlier row with the same key.
    pub fn upsert(&mut self, value: Record)
        requires
            old(self).wf(),
        ensures
            final(self).wf(),
            final(self).key_map() == old(self).key_map().insert(value@.key, value@),
    {
        crate::upsert_row(&mut self.rows, value);
    }

    /// How many rows the reply carries.
    pub fn len(&self) -> (r: usize)
        ensures
            r == self@.len(),
    {
        self.rows.len()
    }

    pub fn is_empty(&self) -> (r: bool)
        ensures
            r == (self@.len() == 0),
    {
        self.rows.len() == 0
    }

    /// The keys of the carried rows, in order.
    pub fn keys(&self) -> (r: Vec<u64>)
        ensures
            r@ == seq_keys(self@),
    {
        let mut keys: Vec<u64> = Vec::new();
        let mut i: usize = 0;
        while i < self.rows.len()
            invariant
                i <= self.rows.len(),
                keys@ == seq_keys(self@).take(i as int),
            decreases self.rows.len() - i,
        {
            keys.push(self.rows[i].key);
            proof {
                assert(keys@ =~= seq_keys(self@).take(i as int + 1));
            }
            i += 1;
        }
        proof {
            assert(keys@ =~= seq_keys(self@));
        }
        keys
    }

    /// The carried rows, consuming the reply.
    pub fn into_rows(self) -> (r: Vec<Record>)
        ensures
            r.deep_view() == self@,
    {
        self.rows
    }

    /// The carried rows.
    pub fn rows(&self) -> (r: &Vec<Record>)
        ensures
            r.deep_view() == self@,
    {
        &self.rows
    }
}

impl Clone for FreshData {
    fn clone(&self) -> (r: Self)
        ensures
            r@ == self@,
    {
        let r = FreshData { rows: self.rows.clone() };
        proof {
            assert(r@ =~= self@);
        }
        r
    }
}

/// The map that results from upserting the rows of the batch in order.
pub open spec fn fold_rows(s: Seq<RecordV>) -> Map<u64, RecordV>
    decreases s.len(),
{
    if s.len() == 0 {
        Map::empty()
    } else {
        fold_rows(s.drop_last()).insert(s.last().key, s.last())
    }
}

/// On distinct keys, folding the rows gives exactly their key map.
pub proof fn lemma_fold_rows_as_map(s: Seq<RecordV>)
    requires
        crate::distinct_keys(s),
    ensures
        fold_rows(s) == as_map(s),
    decreases s.len(),
{
    if s.len() == 0 {
        assert(as_map(s) =~= Map::<u64, RecordV>::empty());
    } else {
        let s0 = s.drop_last();
        assert(crate::distinct_keys(s0));
        lemma_fold_rows_as_map(s0);
        assert(!crate::has_key(s0, s.last().key));
        crate::lemma_upsert_push(s0, s.last());
        assert(s0.push(s.last()) =~= s);
    }
}

/// What the storage hand-off produces for one query: on success the fresh
/// data to deliver, on failure the error to report.
pub enum QueryResponse {
    Fresh(FreshData),
    Failed(QueryError),
}

impl QueryResponse {
    /// Splits the response into the optional fresh data and the result that
    /// is replied to the submitting client.
    pub fn into_parts(self) -> (r: (Option<FreshData>, QueryResult))
        ensures
            self is Fresh ==> r.0 == Some(self->Fresh_0) && r.1 is Success,
            self is Failed ==> r.0 is None && r.1 is Error,
    {
        match self {
            QueryResponse::Fresh(fresh_data) => (Some(fresh_data), QueryResult::Success),
            QueryResponse::Failed(err) => (None, QueryResult::Error(err)),
        }
    }
}

/// A submitted query: who asks, what for, and the ticket under which the
/// result is replied.
pub struct DataQuery {
    pub ticket: u64,
    pub origin_uuid: u64,
    pub query_type: QueryType,
}

/// Ghost mirror of a [`DataQuery`].
pub ghost struct DataQueryV {
    pub ticket: u64,
    pub origin_uuid: u64,
    pub query_type: QueryTypeV,
}

impl DeepView for DataQuery {
    type V = DataQueryV;

    open spec fn deep_view(&self) -> DataQueryV {
        DataQueryV {
            ticket: self.ticket,
            origin_uuid: self.origin_uuid,
            query_type: self.query_type.deep_view(),
        }
    }
}

} // verus!
