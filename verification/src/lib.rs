//! A reactive, view-aware data cache: many client handles (`Communicator`)
//! share a single backing store through one orchestrator (`DataContainer`),
//! which routes every mutation to exactly the clients whose local views are
//! affected by it.

use vstd::prelude::*;

pub mod change;
pub mod communicator;
pub mod container;
pub mod order;
pub mod query;
pub mod text;

verus! {

/// Trait through which a stored value exposes its identity.
pub trait GetKey {
    /// The key of a value; stable for the lifetime of a row.
    fn key(&self) -> (k: u64)
        ensures
            k == self.spec_key(),
    ;

    /// The key as seen by specifications.
    spec fn spec_key(&self) -> u64;
}

/// The unit of storage: a row with a numeric key and a text payload.
#[derive(Debug)]
pub struct Record {
    pub key: u64,
    pub val: String,
}

impl Clone for Record {
    fn clone(&self) -> (r: Self)
        ensures
            r@ == self@,
    {
        Record { key: self.key, val: self.val.clone() }
    }
}

/// Ghost mirror of a [`Record`]: the key together with the payload's
/// character sequence.
pub ghost struct RecordV {
    pub key: u64,
    pub val: Seq<char>,
}

impl View for Record {
    type V = RecordV;

    open spec fn view(&self) -> RecordV {
        RecordV { key: self.key, val: self.val@ }
    }
}

impl DeepView for Record {
    type V = RecordV;

    open spec fn deep_view(&self) -> RecordV {
        self@
    }
}

impl GetKey for Record {
    fn key(&self) -> (k: u64) {
        self.key
    }

    open spec fn spec_key(&self) -> u64 {
        self.key
    }
}

/// Trait through which a fallible outcome drops its error detail.
pub trait BlankOutError<Value, Error> {
    /// The same outcome with the error blanked to unit.
    fn blank_err(self) -> (r: Result<Value, ()>);
}

impl<Value, Error> BlankOutError<Value, Error> for Result<Value, Error> {
    fn blank_err(self) -> (r: Result<Value, ()>)
        ensures
            self is Ok <==> r is Ok,
            self matches Ok(v) ==> r == Ok::<Value, ()>(v),
    {
        match self {
            Ok(v) => Ok(v),
            Err(_) => Err(()),
        }
    }
}

/// Trait through which a batch of values exposes its keys.
pub trait GetKeys {
    /// The keys of the batch, in order.
    fn keys(&self) -> (ks: Vec<u64>)
        ensures
            ks@ == self.spec_keys(),
    ;

    /// The keys as seen by specifications.
    spec fn spec_keys(&self) -> Seq<u64>;
}

impl GetKeys for Vec<Record> {
    fn keys(&self) -> (ks: Vec<u64>) {
        let mut keys: Vec<u64> = Vec::new();
        let mut i: usize = 0;
        while i < self.len()
            invariant
                i <= self.len(),
                keys@ == seq_keys(self.deep_view()).take(i as int),
            decreases self.len() - i,
        {
            keys.push(self[i].key);
            proof {
                assert(keys@ =~= seq_keys(self.deep_view()).take(i as int + 1));
            }
            i += 1;
        }
        proof {
            assert(keys@ =~= seq_keys(self.deep_view()));
        }
        keys
    }

    open spec fn spec_keys(&self) -> Seq<u64> {
        seq_keys(self.deep_view())
    }
}

impl Record {
    pub fn new(key: u64, val: String) -> (r: Record)
        ensures
            r@ == (RecordV { key, val: val@ }),
    {
        Record { key, val }
    }
}

impl PartialEq for Record {
    fn eq(&self, other: &Record) -> (r: bool) {
        self.key == other.key && self.val == other.val
    }
}

/// The keys of a sequence of rows, in order.
pub open spec fn seq_keys(s: Seq<RecordV>) -> Seq<u64> {
    s.map_values(|r: RecordV| r.key)
}

/// No two rows of the sequence share a key.
pub open spec fn distinct_keys(s: Seq<RecordV>) -> bool {
    forall|i: int, j: int| 0 <= i < j < s.len() ==> s[i].key != s[j].key
}

/// The set of keys occurring in the sequence.
pub open spec fn key_set(s: Seq<RecordV>) -> Set<u64> {
    seq_keys(s).to_set()
}

/// Some index at which the key occurs (meaningful only when it does).
pub open spec fn index_of_key(s: Seq<RecordV>, k: u64) -> int {
    choose|i: int| 0 <= i < s.len() && s[i].key == k
}

/// Whether the key occurs in the sequence.
pub open spec fn has_key(s: Seq<RecordV>, k: u64) -> bool {
    exists|i: int| 0 <= i < s.len() && s[i].key == k
}

/// The rows as a map from key to row; on duplicate keys the map is keyed by
/// an arbitrary occurrence, so it is meaningful only under [`distinct_keys`].
pub open spec fn as_map(s: Seq<RecordV>) -> Map<u64, RecordV> {
    Map::new(|k: u64| has_key(s, k), |k: u64| s[index_of_key(s, k)])
}

pub broadcast proof fn lemma_key_set_has_key(s: Seq<RecordV>, k: u64)
    ensures
        #[trigger] key_set(s).contains(k) == has_key(s, k),
{
    if key_set(s).contains(k) {
        let i = choose|i: int| 0 <= i < seq_keys(s).len() && seq_keys(s)[i] == k;
        assert(s[i].key == k);
    }
    if has_key(s, k) {
        let i = choose|i: int| 0 <= i < s.len() && s[i].key == k;
        assert(seq_keys(s)[i] == k);
    }
}

/// Under distinct keys, the map sends each row's key to that row.
pub proof fn lemma_as_map_index(s: Seq<RecordV>, i: int)
    requires
        distinct_keys(s),
        0 <= i < s.len(),
    ensures
        as_map(s).dom().contains(s[i].key),
        as_map(s)[s[i].key] == s[i],
{
    assert(has_key(s, s[i].key));
    let j = index_of_key(s, s[i].key);
    assert(0 <= j < s.len() && s[j].key == s[i].key);
    if i != j {
        assert(false);
    }
}

/// The domain of the map is exactly the key set.
pub proof fn lemma_as_map_dom(s: Seq<RecordV>)
    ensures
        as_map(s).dom() =~= key_set(s),
{
    assert forall|k: u64| as_map(s).dom().contains(k) <==> key_set(s).contains(k) by {
        lemma_key_set_has_key(s, k);
    }
}


/// Upserting into distinct-keyed rows by replacing in place inserts into the
/// key map.
pub proof fn lemma_upsert_update(s: Seq<RecordV>, i: int, v: RecordV)
    requires
        distinct_keys(s),
        0 <= i < s.len(),
        s[i].key == v.key,
    ensures
        distinct_keys(s.update(i, v)),
        as_map(s.update(i, v)) == as_map(s).insert(v.key, v),
{
    let s2 = s.update(i, v);
    assert forall|k: u64| has_key(s2, k) <==> as_map(s).insert(v.key, v).dom().contains(k) by {
        if has_key(s2, k) {
            let t = choose|t: int| 0 <= t < s2.len() && s2[t].key == k;
            if t == i {
                assert(k == v.key);
            } else {
                assert(has_key(s, k));
            }
        }
        if as_map(s).insert(v.key, v).dom().contains(k) {
            if k == v.key {
                assert(s2[i].key == k);
            } else {
                let t = index_of_key_witness(s, k);
                assert(s2[t].key == k);
            }
        }
    }
    assert forall|k: u64| has_key(s2, k) implies as_map(s2)[k] == as_map(s).insert(v.key, v)[k] by {
        let t = index_of_key(s2, k);
        assert(0 <= t < s2.len() && s2[t].key == k);
        if k == v.key {
            if t != i {
                assert(s[t].key == s[i].key);
                assert(false);
            }
        } else {
            assert(t != i);
            assert(s[t].key == k);
            let u = index_of_key(s, k);
            assert(0 <= u < s.len() && s[u].key == k);
            if u != t {
                assert(false);
            }
        }
    }
    assert(as_map(s2) =~= as_map(s).insert(v.key, v));
}

/// The index of a key that is known to occur.
pub proof fn index_of_key_witness(s: Seq<RecordV>, k: u64) -> (i: int)
    requires
        has_key(s, k),
    ensures
        0 <= i < s.len() && s[i].key == k,
        i == index_of_key(s, k),
{
    index_of_key(s, k)
}

/// Upserting a fresh key by pushing inserts into the key map.
pub proof fn lemma_upsert_push(s: Seq<RecordV>, v: RecordV)
    requires
        distinct_keys(s),
        !has_key(s, v.key),
    ensures
        distinct_keys(s.push(v)),
        as_map(s.push(v)) == as_map(s).insert(v.key, v),
{
    let s2 = s.push(v);
    assert forall|t: int| 0 <= t < s.len() implies s2[t] == s[t] by {}
    assert forall|k: u64| has_key(s2, k) <==> as_map(s).insert(v.key, v).dom().contains(k) by {
        if has_key(s2, k) {
            let t = choose|t: int| 0 <= t < s2.len() && s2[t].key == k;
            if t < s.len() {
                assert(has_key(s, k));
            } else {
                assert(k == v.key);
            }
        }
        if as_map(s).insert(v.key, v).dom().contains(k) {
            if k == v.key {
                assert(s2[s.len() as int].key == k);
            } else {
                let t = index_of_key_witness(s, k);
                assert(s2[t].key == k);
            }
        }
    }
    assert forall|k: u64| has_key(s2, k) implies as_map(s2)[k] == as_map(s).insert(v.key, v)[k] by {
        let t = index_of_key(s2, k);
        assert(0 <= t < s2.len() && s2[t].key == k);
        if k == v.key {
            if t != s.len() {
                assert(has_key(s, v.key));
            }
        } else {
            assert(t < s.len());
            let u = index_of_key_witness(s, k);
            if u != t {
                assert(false);
            }
        }
    }
    assert(as_map(s2) =~= as_map(s).insert(v.key, v));
}


/// Adds one row to the batch, replacing any earlier row with the same key
/// (in place) or appending it.
pub fn upsert_row(rows: &mut Vec<Record>, value: Record)
    requires
        distinct_keys(old(rows).deep_view()),
    ensures
        distinct_keys(final(rows).deep_view()),
        as_map(final(rows).deep_view()) == as_map(old(rows).deep_view()).insert(
            value@.key,
            value@,
        ),
{
    let ghost pre = rows.deep_view();
    let mut i: usize = 0;
    while i < rows.len()
        invariant
            i <= rows.len(),
            rows.deep_view() == pre,
            pre == old(rows).deep_view(),
            distinct_keys(pre),
            forall|t: int| 0 <= t < i ==> pre[t].key != value@.key,
        decreases rows.len() - i,
    {
        if rows[i].key == value.key {
            rows.set(i, value);
            proof {
                assert(rows.deep_view() =~= pre.update(i as int, rows[i as int]@));
                lemma_upsert_update(pre, i as int, rows.deep_view()[i as int]);
            }
            return ;
        }
        i += 1;
    }
    rows.push(value);
    proof {
        assert(rows.deep_view() =~= pre.push(rows.deep_view().last()));
        lemma_upsert_push(pre, rows.deep_view().last());
    }
}

/// Removing a row removes its key from the map.
pub proof fn lemma_remove_as_map(s: Seq<RecordV>, i: int)
    requires
        distinct_keys(s),
        0 <= i < s.len(),
    ensures
        distinct_keys(s.remove(i)),
        !has_key(s.remove(i), s[i].key),
        as_map(s.remove(i)) == as_map(s).remove(s[i].key),
{
    let s2 = s.remove(i);
    assert forall|t: int| 0 <= t < s2.len() implies s2[t] == (if t < i {
        s[t]
    } else {
        s[t + 1]
    }) by {}
    if has_key(s2, s[i].key) {
        let t = choose|t: int| 0 <= t < s2.len() && s2[t].key == s[i].key;
        if t < i {
            assert(s[t].key == s[i].key);
        } else {
            assert(s[t + 1].key == s[i].key);
        }
        assert(false);
    }
    assert forall|k: u64| has_key(s2, k) <==> as_map(s).remove(s[i].key).dom().contains(k) by {
        if has_key(s2, k) {
            let t = choose|t: int| 0 <= t < s2.len() && s2[t].key == k;
            if t < i {
                assert(s[t].key == k);
            } else {
                assert(s[t + 1].key == k);
            }
            assert(has_key(s, k));
            assert(k != s[i].key);
        }
        if as_map(s).remove(s[i].key).dom().contains(k) {
            let t = index_of_key_witness(s, k);
            assert(t != i);
            if t < i {
                assert(s2[t].key == k);
            } else {
                assert(s2[t - 1].key == k);
            }
        }
    }
    assert forall|k: u64| has_key(s2, k) implies as_map(s2)[k] == as_map(s).remove(s[i].key)[k] by {
        let t = index_of_key_witness(s2, k);
        let u = index_of_key_witness(s, k);
        if t < i {
            if u != t {
                assert(false);
            }
        } else {
            if u != t + 1 {
                assert(false);
            }
        }
    }
    assert(as_map(s2) =~= as_map(s).remove(s[i].key));
}

/// Two distinct-keyed batches with the same rows have the same map.
pub proof fn lemma_as_map_permutation(s1: Seq<RecordV>, s2: Seq<RecordV>)
    requires
        distinct_keys(s1),
        distinct_keys(s2),
        s1.to_multiset() == s2.to_multiset(),
    ensures
        as_map(s1) == as_map(s2),
{
    broadcast use vstd::seq_lib::group_to_multiset_ensures;

    assert forall|k: u64| has_key(s1, k) <==> has_key(s2, k) by {
        if has_key(s1, k) {
            let t = index_of_key_witness(s1, k);
            assert(s1.contains(s1[t]));
            assert(s2.to_multiset().count(s1[t]) > 0);
            assert(s2.contains(s1[t]));
            let u = choose|u: int| 0 <= u < s2.len() && s2[u] == s1[t];
            assert(s2[u].key == k);
        }
        if has_key(s2, k) {
            let t = index_of_key_witness(s2, k);
            assert(s2.contains(s2[t]));
            assert(s1.to_multiset().count(s2[t]) > 0);
            assert(s1.contains(s2[t]));
            let u = choose|u: int| 0 <= u < s1.len() && s1[u] == s2[t];
            assert(s1[u].key == k);
        }
    }
    assert forall|k: u64| has_key(s1, k) implies as_map(s1)[k] == as_map(s2)[k] by {
        let t = index_of_key_witness(s1, k);
        assert(s1.contains(s1[t]));
        assert(s2.to_multiset().count(s1[t]) > 0);
        assert(s2.contains(s1[t]));
        let u = choose|u: int| 0 <= u < s2.len() && s2[u] == s1[t];
        let w = index_of_key_witness(s2, k);
        if w != u {
            assert(false);
        }
    }
    assert(as_map(s1) =~= as_map(s2));
}


/// The rows of the sequence accepted by the filter, in order.
pub open spec fn filter_rows(s: Seq<RecordV>, f: spec_fn(RecordV) -> bool) -> Seq<RecordV>
    decreases s.len(),
{
    if s.len() == 0 {
        Seq::empty()
    } else {
        let rest = filter_rows(s.drop_last(), f);
        if f(s.last()) {
            rest.push(s.last())
        } else {
            rest
        }
    }
}

/// Every filtered row is a row of the input accepted by the filter, and
/// every accepted row of the input is kept.
pub proof fn lemma_filter_rows_membership(s: Seq<RecordV>, f: spec_fn(RecordV) -> bool)
    ensures
        forall|t: int|
            0 <= t < filter_rows(s, f).len() ==> s.contains(#[trigger] filter_rows(s, f)[t])
                && f(filter_rows(s, f)[t]),
        forall|t: int| 0 <= t < s.len() && f(#[trigger] s[t]) ==> filter_rows(s, f).contains(s[t]),
    decreases s.len(),
{
    if s.len() > 0 {
        let s0 = s.drop_last();
        lemma_filter_rows_membership(s0, f);
        assert forall|t: int|
            0 <= t < filter_rows(s, f).len() implies s.contains(#[trigger] filter_rows(s, f)[t])
            && f(filter_rows(s, f)[t]) by {
            if t < filter_rows(s0, f).len() {
                assert(filter_rows(s, f)[t] == filter_rows(s0, f)[t]);
                let u = choose|u: int| 0 <= u < s0.len() && s0[u] == filter_rows(s0, f)[t];
                assert(s[u] == filter_rows(s, f)[t]);
            } else {
                assert(filter_rows(s, f)[t] == s.last());
                assert(s[s.len() - 1] == s.last());
            }
        }
        assert forall|t: int| 0 <= t < s.len() && f(#[trigger] s[t]) implies filter_rows(
            s,
            f,
        ).contains(s[t]) by {
            if t < s.len() - 1 {
                assert(s0[t] == s[t]);
                assert(filter_rows(s0, f).contains(s[t]));
                let u = choose|u: int| 0 <= u < filter_rows(s0, f).len() && filter_rows(s0, f)[u]
                    == s[t];
                assert(filter_rows(s, f)[u] == s[t]);
            } else {
                assert(s[t] == s.last());
                assert(filter_rows(s, f).last() == s.last());
            }
        }
    }
}

/// Filtering keeps keys distinct and acts on the key map as a pointwise
/// restriction.
pub proof fn lemma_filter_rows_as_map(s: Seq<RecordV>, f: spec_fn(RecordV) -> bool)
    requires
        distinct_keys(s),
    ensures
        distinct_keys(filter_rows(s, f)),
        as_map(filter_rows(s, f)) == Map::<u64, RecordV>::new(
            |k: u64| has_key(s, k) && f(as_map(s)[k]),
            |k: u64| as_map(s)[k],
        ),
    decreases s.len(),
{
    lemma_filter_rows_membership(s, f);
    let fs = filter_rows(s, f);
    assert forall|x: int, y: int| 0 <= x < y < fs.len() implies fs[x].key != fs[y].key by {
        lemma_filter_rows_distinct_pair(s, f, x, y);
    }
    let target = Map::<u64, RecordV>::new(
        |k: u64| has_key(s, k) && f(as_map(s)[k]),
        |k: u64| as_map(s)[k],
    );
    assert forall|k: u64| has_key(fs, k) <==> target.dom().contains(k) by {
        if has_key(fs, k) {
            let t = index_of_key_witness(fs, k);
            let r = fs[t];
            assert(s.contains(r) && f(r));
            let u = choose|u: int| 0 <= u < s.len() && s[u] == r;
            lemma_as_map_index(s, u);
            assert(as_map(s)[k] == r);
        }
        if target.dom().contains(k) {
            let u = index_of_key_witness(s, k);
            lemma_as_map_index(s, u);
            assert(f(s[u]));
            assert(fs.contains(s[u]));
            let t = choose|t: int| 0 <= t < fs.len() && fs[t] == s[u];
            assert(fs[t].key == k);
        }
    }
    assert forall|k: u64| has_key(fs, k) implies as_map(fs)[k] == target[k] by {
        let t = index_of_key_witness(fs, k);
        let r = fs[t];
        assert(s.contains(r) && f(r));
        let u = choose|u: int| 0 <= u < s.len() && s[u] == r;
        lemma_as_map_index(s, u);
        lemma_as_map_index(fs, t);
    }
    assert(as_map(fs) =~= target);
}

/// Two filtered rows at different positions have different keys.
proof fn lemma_filter_rows_distinct_pair(
    s: Seq<RecordV>,
    f: spec_fn(RecordV) -> bool,
    x: int,
    y: int,
)
    requires
        distinct_keys(s),
        0 <= x < y < filter_rows(s, f).len(),
    ensures
        filter_rows(s, f)[x].key != filter_rows(s, f)[y].key,
    decreases s.len(),
{
    if s.len() > 0 {
        let s0 = s.drop_last();
        let fs0 = filter_rows(s0, f);
        if f(s.last()) {
            if y < fs0.len() {
                lemma_filter_rows_distinct_pair(s0, f, x, y);
            } else {
                // y is the appended last row; x is a filtered row of s0.
                lemma_filter_rows_membership(s0, f);
                assert(filter_rows(s, f)[y] == s.last());
                assert(filter_rows(s, f)[x] == fs0[x]);
                assert(s0.contains(fs0[x]));
                let u = choose|u: int| 0 <= u < s0.len() && s0[u] == fs0[x];
                assert(s[u] == fs0[x]);
                assert(s[u].key != s[s.len() - 1].key);
            }
        } else {
            lemma_filter_rows_distinct_pair(s0, f, x, y);
        }
    }
}

/// The position of the row with the given key, if any.
pub fn position_of_key(rows: &Vec<Record>, key: u64) -> (r: Option<usize>)
    ensures
        match r {
            Some(i) => i < rows.deep_view().len() && rows.deep_view()[i as int].key == key,
            None => !has_key(rows.deep_view(), key),
        },
{
    let mut i: usize = 0;
    while i < rows.len()
        invariant
            i <= rows.len(),
            forall|t: int| 0 <= t < i ==> rows.deep_view()[t].key != key,
        decreases rows.len() - i,
    {
        if rows[i].key == key {
            return Some(i);
        }
        i += 1;
    }
    None
}


/// Replaces the row stored under the value's key, if present; a value whose
/// key is absent is ignored.
pub fn update_row(rows: &mut Vec<Record>, value: Record)
    requires
        distinct_keys(old(rows).deep_view()),
    ensures
        distinct_keys(final(rows).deep_view()),
        as_map(final(rows).deep_view()) == (if as_map(old(rows).deep_view()).dom().contains(
            value@.key,
        ) {
            as_map(old(rows).deep_view()).insert(value@.key, value@)
        } else {
            as_map(old(rows).deep_view())
        }),
{
    let ghost pre = rows.deep_view();
    let found = position_of_key(rows, value.key);
    match found {
        Some(at) => {
            rows.set(at, value);
            proof {
                assert(rows.deep_view() =~= pre.update(at as int, rows.deep_view()[at as int]));
                lemma_upsert_update(pre, at as int, rows.deep_view()[at as int]);
            }
        },
        None => {
        },
    }
}

/// Removes the row stored under the key, if present.
pub fn remove_row(rows: &mut Vec<Record>, key: u64)
    requires
        distinct_keys(old(rows).deep_view()),
    ensures
        distinct_keys(final(rows).deep_view()),
        as_map(final(rows).deep_view()) == as_map(old(rows).deep_view()).remove(key),
{
    let ghost pre = rows.deep_view();
    let found = position_of_key(rows, key);
    match found {
        Some(at) => {
            rows.remove(at);
            proof {
                assert(rows.deep_view() =~= pre.remove(at as int));
                lemma_remove_as_map(pre, at as int);
            }
        },
        None => {
            proof {
                assert(as_map(pre).remove(key) =~= as_map(pre));
            }
        },
    }
}

impl vstd::std_specs::cmp::PartialEqSpecImpl for Record {
    open spec fn obeys_eq_spec() -> bool {
        true
    }

    open spec fn eq_spec(&self, other: &Record) -> bool {
        self@ == other@
    }
}

} // verus!
