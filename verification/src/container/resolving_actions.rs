//! Submitted actions awaiting storage, and completed storage operations
//! awaiting resolution into replies and fan-out.

use vstd::prelude::*;

use crate::change::{Change, ChangeResponse, ChangeResult, ChangeV, DataChange, DataChangeV};
use crate::query::{DataQuery, DataQueryV, FreshData, QueryResponse, QueryResult};
use crate::RecordV;

verus! {

/// A submission drained from the intake: a change or a query.
pub enum Action {
    Change(Change),
    Query(DataQuery),
}

/// Ghost mirror of an [`Action`].
pub ghost enum ActionV {
    Change(ChangeV),
    Query(DataQueryV),
}

impl DeepView for Action {
    type V = ActionV;

    open spec fn deep_view(&self) -> ActionV {
        match self {
            Action::Change(c) => ActionV::Change(c.deep_view()),
            Action::Query(q) => ActionV::Query(q.deep_view()),
        }
    }
}

/// A storage operation the container has started and not yet resolved; its
/// outcome is already fixed and is surfaced on the next tick.
pub enum ResolvingAction {
    Change(ChangeResponse, u64),
    Query(QueryResponse, u64, u64),
}

/// Ghost mirror of a [`ResolvingAction`]: the kind, the ticket, and on
/// success the payload it resolves to.
pub ghost enum ResolvingActionV {
    Change { delta: Option<DataChangeV>, ticket: u64 },
    Query { fresh: Option<Seq<RecordV>>, origin: u64, ticket: u64 },
}

impl DeepView for ResolvingAction {
    type V = ResolvingActionV;

    open spec fn deep_view(&self) -> ResolvingActionV {
        match self {
            ResolvingAction::Change(resp, ticket) => ResolvingActionV::Change {
                delta: match resp {
                    ChangeResponse::Changed(dc) => Some(dc.deep_view()),
                    ChangeResponse::Failed(_) => None,
                },
                ticket: *ticket,
            },
            ResolvingAction::Query(resp, origin, ticket) => ResolvingActionV::Query {
                fresh: match resp {
                    QueryResponse::Fresh(f) => Some(f@),
                    QueryResponse::Failed(_) => None,
                },
                origin: *origin,
                ticket: *ticket,
            },
        }
    }
}

/// A completed operation's fan-out payload: a raw mutation, or fresh data
/// for its originator.
pub enum ResolvedAction {
    Change(DataChange),
    Query(FreshData, u64),
}

/// The stored result of a change, retrievable under its ticket.
#[derive(Debug)]
pub struct ChangeReply {
    pub ticket: u64,
    pub result: ChangeResult,
}

/// Ghost mirror of a [`ChangeReply`]: whether the change succeeded.
pub ghost struct ChangeReplyV {
    pub ticket: u64,
    pub ok: bool,
}

impl DeepView for ChangeReply {
    type V = ChangeReplyV;

    open spec fn deep_view(&self) -> ChangeReplyV {
        ChangeReplyV { ticket: self.ticket, ok: self.result is Success }
    }
}

/// The stored result of a query, retrievable under its ticket.
#[derive(Debug)]
pub struct QueryReply {
    pub ticket: u64,
    pub result: QueryResult,
}

/// Ghost mirror of a [`QueryReply`]: whether the query succeeded.
pub ghost struct QueryReplyV {
    pub ticket: u64,
    pub ok: bool,
}

impl DeepView for QueryReply {
    type V = QueryReplyV;

    open spec fn deep_view(&self) -> QueryReplyV {
        QueryReplyV { ticket: self.ticket, ok: self.result is Success }
    }
}

/// What resolving one completed operation yields: the reply for the
/// submitter, and the payload to fan out if the operation succeeded.
pub enum ActionReply {
    Change(ChangeReply),
    Query(QueryReply),
}

impl ResolvingAction {
    /// Splits a completed operation into the reply owed to its submitter and
    /// the payload to fan out.
    pub fn resolve(self) -> (r: (ActionReply, Option<ResolvedAction>))
        ensures
            self.deep_view() matches ResolvingActionV::Change { delta, ticket } ==> {
                &&& r.0 matches ActionReply::Change(c) && c.ticket == ticket && c.result
                    is Success == (delta is Some)
                &&& (delta matches Some(dc) ==> r.1 matches Some(ResolvedAction::Change(d))
                    && d.deep_view() == dc)
                &&& (delta is None ==> r.1 is None)
            },
            self.deep_view() matches ResolvingActionV::Query { fresh, origin, ticket } ==> {
                &&& r.0 matches ActionReply::Query(q) && q.ticket == ticket && q.result
                    is Success == (fresh is Some)
                &&& (fresh matches Some(f) ==> r.1 matches Some(ResolvedAction::Query(d, o))
                    && d@ == f && o == origin)
                &&& (fresh is None ==> r.1 is None)
            },
    {
        match self {
            ResolvingAction::Change(response, ticket) => {
                let (data_change, change_result) = response.into_parts();
                let reply = ActionReply::Change(ChangeReply { ticket, result: change_result });
                match data_change {
                    Some(data) => (reply, Some(ResolvedAction::Change(data))),
                    None => (reply, None),
                }
            },
            ResolvingAction::Query(response, origin, ticket) => {
                let (fresh_data, query_result) = response.into_parts();
                let reply = ActionReply::Query(QueryReply { ticket, result: query_result });
                match fresh_data {
                    Some(data) => (reply, Some(ResolvedAction::Query(data, origin))),
                    None => (reply, None),
                }
            },
        }
    }
}

} // verus!
