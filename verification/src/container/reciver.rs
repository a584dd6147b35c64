//! The container's submission intake: the queues that client handles write
//! their change and query submissions into.

use vstd::prelude::*;

use crate::change::{Change, ChangeV};
use crate::container::resolving_actions::{Action, ActionV};
use crate::query::{DataQuery, DataQueryV};

verus! {

/// The pending submissions, changes and queries in separate queues.
pub struct Reciver {
    changes: Vec<Change>,
    queries: Vec<DataQuery>,
}

/// Ghost mirror of the [`Reciver`].
pub ghost struct ReciverV {
    pub changes: Seq<ChangeV>,
    pub queries: Seq<DataQueryV>,
}

impl View for Reciver {
    type V = ReciverV;

    closed spec fn view(&self) -> ReciverV {
        ReciverV { changes: self.changes.deep_view(), queries: self.queries.deep_view() }
    }
}

/// The actions a drain of the intake yields: all pending changes, then all
/// pending queries, in submission order.
pub open spec fn drained_actions(v: ReciverV) -> Seq<ActionV> {
    v.changes.map_values(|c: ChangeV| ActionV::Change(c)) + v.queries.map_values(
        |q: DataQueryV| ActionV::Query(q),
    )
}

impl Reciver {
    pub fn new() -> (r: Self)
        ensures
            r@.changes == Seq::<ChangeV>::empty(),
            r@.queries == Seq::<DataQueryV>::empty(),
    {
        let r = Reciver { changes: Vec::new(), queries: Vec::new() };
        proof {
            assert(r@.changes =~= Seq::<ChangeV>::empty());
            assert(r@.queries =~= Seq::<DataQueryV>::empty());
        }
        r
    }

    /// Accepts a change submission.
    pub fn submit_change(&mut self, change: Change)
        ensures
            final(self)@.changes == old(self)@.changes.push(change.deep_view()),
            final(self)@.queries == old(self)@.queries,
    {
        let ghost pre = self@.changes;
        self.changes.push(change);
        proof {
            assert(self@.changes =~= pre.push(self@.changes.last()));
        }
    }

    /// Accepts a query submission.
    pub fn submit_query(&mut self, query: DataQuery)
        ensures
            final(self)@.queries == old(self)@.queries.push(query.deep_view()),
            final(self)@.changes == old(self)@.changes,
    {
        let ghost pre = self@.queries;
        self.queries.push(query);
        proof {
            assert(self@.queries =~= pre.push(self@.queries.last()));
        }
    }

    /// Drains every pending submission: all changes first, then all queries,
    /// each in the order it was submitted.
    pub fn recive_new(&mut self) -> (r: Vec<Action>)
        ensures
            r.deep_view() == drained_actions(old(self)@),
            final(self)@.changes == Seq::<ChangeV>::empty(),
            final(self)@.queries == Seq::<DataQueryV>::empty(),
    {
        let ghost cv = self@.changes;
        let ghost qv = self@.queries;
        let mut out: Vec<Action> = Vec::new();
        let mut changes: Vec<Change> = Vec::new();
        let mut queries: Vec<DataQuery> = Vec::new();
        core::mem::swap(&mut changes, &mut self.changes);
        core::mem::swap(&mut queries, &mut self.queries);
        proof {
            assert(self@.changes =~= Seq::<ChangeV>::empty());
            assert(self@.queries =~= Seq::<DataQueryV>::empty());
            assert(changes.deep_view() == cv);
            assert(queries.deep_view() == qv);
            assert(out.deep_view() =~= cv.map_values(|c: ChangeV| ActionV::Change(c)).take(0));
        }
        let n = changes.len();
        proof {
            assert(cv.len() == n as int);
        }
        let mut i: usize = 0;
        let mut changes = changes;
        while changes.len() > 0
            invariant
                cv.len() == n as int,
                i <= cv.len(),
                changes.deep_view() == cv.subrange(i as int, cv.len() as int),
                out.deep_view() == cv.map_values(|c: ChangeV| ActionV::Change(c)).take(i as int),
            decreases changes.len(),
        {
            proof {
                assert(changes.deep_view().len() == changes@.len());
                assert(changes.deep_view().len() == cv.len() - i);
            }
            let ghost tpre = changes.deep_view();
            let c = changes.remove(0);
            proof {
                assert(c.deep_view() == tpre[0]);
                assert(tpre[0] == cv.subrange(i as int, cv.len() as int)[0]);
                assert forall|t2: int|
                    0 <= t2 < changes.deep_view().len() implies changes.deep_view()[t2] == cv[i + 1
                    + t2] by {
                    assert(changes.deep_view()[t2] == tpre[t2 + 1]);
                    assert(tpre[t2 + 1] == cv.subrange(i as int, cv.len() as int)[t2 + 1]);
                }
                assert(changes.deep_view() =~= cv.subrange(i + 1, cv.len() as int));
            }
            let ghost opre = out.deep_view();
            let a = Action::Change(c);
            out.push(a);
            proof {
                assert(out.deep_view() =~= opre.push(a.deep_view()));
                assert(out.deep_view() =~= cv.map_values(|c2: ChangeV| ActionV::Change(c2)).take(
                    i + 1,
                ));
            }
            i += 1;
        }
        proof {
            assert(cv.map_values(|c2: ChangeV| ActionV::Change(c2)).take(cv.len() as int) =~= cv.map_values(
                |c2: ChangeV| ActionV::Change(c2),
            ));
        }
        let m = queries.len();
        proof {
            assert(qv.len() == m as int);
        }
        let mut j: usize = 0;
        let mut queries = queries;
        while queries.len() > 0
            invariant
                qv.len() == m as int,
                j <= qv.len(),
                queries.deep_view() == qv.subrange(j as int, qv.len() as int),
                out.deep_view() == cv.map_values(|c2: ChangeV| ActionV::Change(c2))
                    + qv.map_values(|q2: DataQueryV| ActionV::Query(q2)).take(j as int),
            decreases queries.len(),
        {
            proof {
                assert(queries.deep_view().len() == queries@.len());
                assert(queries.deep_view().len() == qv.len() - j);
            }
            let ghost tpre = queries.deep_view();
            let q = queries.remove(0);
            proof {
                assert(q.deep_view() == tpre[0]);
                assert(tpre[0] == qv.subrange(j as int, qv.len() as int)[0]);
                assert forall|t2: int|
                    0 <= t2 < queries.deep_view().len() implies queries.deep_view()[t2] == qv[j + 1
                    + t2] by {
                    assert(queries.deep_view()[t2] == tpre[t2 + 1]);
                    assert(tpre[t2 + 1] == qv.subrange(j as int, qv.len() as int)[t2 + 1]);
                }
                assert(queries.deep_view() =~= qv.subrange(j + 1, qv.len() as int));
            }
            let ghost opre = out.deep_view();
            let a = Action::Query(q);
            out.push(a);
            proof {
                assert(out.deep_view() =~= opre.push(a.deep_view()));
                assert(out.deep_view() =~= cv.map_values(|c2: ChangeV| ActionV::Change(c2))
                    + qv.map_values(|q2: DataQueryV| ActionV::Query(q2)).take(j + 1));
            }
            j += 1;
        }
        proof {
            assert(qv.map_values(|q2: DataQueryV| ActionV::Query(q2)).take(qv.len() as int)
                =~= qv.map_values(|q2: DataQueryV| ActionV::Query(q2)));
            assert(out.deep_view() =~= drained_actions(ReciverV { changes: cv, queries: qv }));
        }
        out
    }
}

} // verus!
