//! The orchestrator: it owns the storage, the interest registry, the
//! in-flight operations and the dispatch queues, and advances the whole
//! system one cooperative tick at a time.

pub mod comm_info;
pub mod reciver;
pub mod resolving_actions;
pub mod storage;
pub mod update_sender;

use vstd::prelude::*;

use crate::change::{Change, ChangeResult, ChangeType, ChangeV, DataChange};
use crate::communicator::Communicator;
use crate::container::comm_info::{
    index_of_id, info_of, interested, known_after, registered, CommEntryV, CommunicatorInfo,
    InfoV, TargetedChangeV,
};
use crate::container::reciver::{drained_actions, Reciver};
use crate::container::resolving_actions::{
    Action, ActionReply, ActionV, ChangeReply, ChangeReplyV, QueryReply, QueryReplyV,
    ResolvedAction, ResolvingAction, ResolvingActionV,
};
use crate::container::storage::{handle_change, handle_query, query_fresh_matches, Storage};
use crate::container::update_sender::{
    has_box, reap_fold, sends_of, MailboxV, PendingSendV, ReapState, SendPayloadV, UpdateSender,
};
use crate::query::{DataQuery, DataQueryV, FreshData, QueryResult, QueryType, QueryTypeV};
use crate::{as_map, distinct_keys, seq_keys, RecordV};

verus! {

/// How many deltas or replies one client mailbox buffers before its sends
/// wait.
pub const MAILBOX_CAPACITY: usize = 20;

/// The state phases of a tick thread through: the registry, the constant
/// mailboxes, the pending sends, and the stored replies.
pub ghost struct RouteState {
    pub reg: Seq<CommEntryV>,
    pub boxes: Seq<MailboxV>,
    pub pend: Seq<PendingSendV>,
    pub creps: Seq<ChangeReplyV>,
    pub qreps: Seq<QueryReplyV>,
}

/// Knowledge folded in for one fan-out target.
pub open spec fn apply_one_target(reg: Seq<CommEntryV>, t: TargetedChangeV) -> Seq<CommEntryV> {
    if registered(reg, t.target) {
        reg.update(
            index_of_id(reg, t.target),
            CommEntryV {
                id: t.target,
                info: InfoV {
                    known: known_after(info_of(reg, t.target).known, t.change),
                    standing: info_of(reg, t.target).standing,
                },
            },
        )
    } else {
        reg
    }
}

/// Knowledge folded in for every fan-out target, first target first.
pub open spec fn apply_targets(reg: Seq<CommEntryV>, ts: Seq<TargetedChangeV>) -> Seq<CommEntryV>
    decreases ts.len(),
{
    if ts.len() == 0 {
        reg
    } else {
        apply_one_target(apply_targets(reg, ts.drop_last()), ts.last())
    }
}

/// What resolving one completed operation does to the routed state.
pub open spec fn process_one(st: RouteState, a: ResolvingActionV) -> RouteState {
    match a {
        ResolvingActionV::Change { delta, ticket } => {
            let creps = st.creps.push(ChangeReplyV { ticket, ok: delta is Some });
            match delta {
                Some(dc) => {
                    let ts = interested(st.reg, dc);
                    RouteState {
                        reg: apply_targets(st.reg, ts),
                        boxes: st.boxes,
                        pend: st.pend + sends_of(ts),
                        creps,
                        qreps: st.qreps,
                    }
                },
                None => RouteState { creps, ..st },
            }
        },
        ResolvingActionV::Query { fresh, origin, ticket } => {
            let qreps = st.qreps.push(QueryReplyV { ticket, ok: fresh is Some });
            match fresh {
                Some(f) => RouteState {
                    reg: if registered(st.reg, origin) {
                        st.reg.update(
                            index_of_id(st.reg, origin),
                            CommEntryV {
                                id: origin,
                                info: InfoV {
                                    known: seq_keys(f).to_set(),
                                    standing: info_of(st.reg, origin).standing,
                                },
                            },
                        )
                    } else {
                        st.reg
                    },
                    boxes: st.boxes,
                    pend: if has_box(st.boxes, origin) {
                        st.pend.push(
                            PendingSendV { target: origin, payload: SendPayloadV::Fresh(f) },
                        )
                    } else {
                        st.pend
                    },
                    creps: st.creps,
                    qreps,
                },
                None => RouteState { qreps, ..st },
            }
        },
    }
}

/// Every completed operation resolved, in completion order.
pub open spec fn process_all(st: RouteState, actions: Seq<ResolvingActionV>) -> RouteState
    decreases actions.len(),
{
    if actions.len() == 0 {
        st
    } else {
        process_one(process_all(st, actions.drop_last()), actions.last())
    }
}

/// Recording one drained query as its originator's standing query.
pub open spec fn apply_one_standing(reg: Seq<CommEntryV>, q: DataQueryV) -> Seq<CommEntryV> {
    if registered(reg, q.origin_uuid) {
        reg.update(
            index_of_id(reg, q.origin_uuid),
            CommEntryV {
                id: q.origin_uuid,
                info: InfoV {
                    known: info_of(reg, q.origin_uuid).known,
                    standing: Some(q.query_type),
                },
            },
        )
    } else {
        reg
    }
}

/// Every drained query recorded, in submission order.
pub open spec fn apply_standings(reg: Seq<CommEntryV>, qs: Seq<DataQueryV>) -> Seq<CommEntryV>
    decreases qs.len(),
{
    if qs.len() == 0 {
        reg
    } else {
        apply_one_standing(apply_standings(reg, qs.drop_last()), qs.last())
    }
}

/// What a tick leaves in place of the in-flight list for one drained change:
/// its ticket, and on success exactly the mutation the request describes.
pub open spec fn change_entry_consistent(c: ChangeV, e: ResolvingActionV) -> bool {
    &&& e matches ResolvingActionV::Change { delta, ticket } && ticket == c.ticket && (
    delta matches Some(d) ==> d == c.action.delta()) && (c.action.is_empty() ==> delta is Some)
}

/// The in-flight entry for one drained query, judged against the storage
/// contents `m` the query ran on: its ticket and originator; on success a
/// duplicate-free snapshot batch that answers the query form over `m`; and
/// a by-id query for an absent key does not succeed.
pub open spec fn query_entry_consistent(
    q: DataQueryV,
    e: ResolvingActionV,
    m: Map<u64, RecordV>,
) -> bool {
    &&& e matches ResolvingActionV::Query { fresh, origin, ticket } && ticket == q.ticket
        && origin == q.origin_uuid && (fresh matches Some(f) ==> distinct_keys(f)
        && query_fresh_matches(q.query_type, m, as_map(f))) && ((
    q.query_type matches QueryTypeV::GetById(k) && !m.dom().contains(k)) ==> fresh is None)
}

/// The storage contents after the drained submissions ran: the successful
/// deltas the new in-flight entries record, folded in drain order.
pub open spec fn apply_running_deltas(
    m: Map<u64, RecordV>,
    entries: Seq<ResolvingActionV>,
) -> Map<u64, RecordV>
    decreases entries.len(),
{
    if entries.len() == 0 {
        m
    } else {
        let prev = apply_running_deltas(m, entries.drop_last());
        match entries.last() {
            ResolvingActionV::Change { delta: Some(dc), .. } => dc.apply_to_store(prev),
            _ => prev,
        }
    }
}

/// The single point of truth: owns the storage and fans every mutation out
/// to exactly the clients interested in it.
pub struct DataContainer<W: Storage> {
    reciver: Reciver,
    update_sender: UpdateSender,
    comm_info: CommunicatorInfo,
    storage: W,
    running_actions: Vec<ResolvingAction>,
    change_replies: Vec<ChangeReply>,
    query_replies: Vec<QueryReply>,
    next_comm_id: u64,
    next_ticket: u64,
}

impl<W: Storage> DataContainer<W> {
    /// The interest registry.
    pub closed spec fn registry(&self) -> Seq<CommEntryV> {
        self.comm_info@
    }

    /// The client mailboxes.
    pub closed spec fn boxes(&self) -> Seq<MailboxV> {
        self.update_sender@.boxes
    }

    /// The sends the dispatch pool still holds.
    pub closed spec fn pending_sends(&self) -> Seq<PendingSendV> {
        self.update_sender@.pending
    }

    /// The mailbox capacity.
    pub closed spec fn capacity(&self) -> nat {
        self.update_sender@.capacity
    }

    /// The change submissions not yet drained.
    pub closed spec fn submitted_changes(&self) -> Seq<ChangeV> {
        self.reciver@.changes
    }

    /// The query submissions not yet drained.
    pub closed spec fn submitted_queries(&self) -> Seq<DataQueryV> {
        self.reciver@.queries
    }

    /// The storage operations dispatched and not yet resolved.
    pub closed spec fn running(&self) -> Seq<ResolvingActionV> {
        self.running_actions.deep_view()
    }

    /// The stored change results not yet taken.
    pub closed spec fn change_reps(&self) -> Seq<ChangeReplyV> {
        self.change_replies.deep_view()
    }

    /// The stored query results not yet taken.
    pub closed spec fn query_reps(&self) -> Seq<QueryReplyV> {
        self.query_replies.deep_view()
    }

    /// The rows the storage holds.
    pub closed spec fn storage_contents(&self) -> Map<u64, RecordV> {
        self.storage.contents()
    }

    /// The id the next created client will get.
    pub closed spec fn next_comm(&self) -> u64 {
        self.next_comm_id
    }

    /// The ticket the next submission will get.
    pub closed spec fn next_tick(&self) -> u64 {
        self.next_ticket
    }

    /// Registry and mailboxes agree, ids are unique and below the counter,
    /// and both the pool and the storage are internally well formed.
    pub open spec fn wf(&self) -> bool {
        &&& comm_info::distinct_ids(self.registry())
        &&& update_sender::distinct_box_ids(self.boxes())
        &&& update_sender::boxes_bounded(self.boxes(), self.capacity())
        &&& forall|id: u64| registered(self.registry(), id) == has_box(self.boxes(), id)
        &&& forall|t: int|
            0 <= t < self.registry().len() ==> (#[trigger] self.registry()[t]).id
                < self.next_comm()
        &&& self.storage_inv()
    }

    /// The storage's own well-formedness.
    pub closed spec fn storage_inv(&self) -> bool {
        self.storage.inv()
    }

    /// Nothing is queued, pending or in flight: a tick has nothing to do.
    pub open spec fn quiescent(&self) -> bool {
        &&& self.pending_sends().len() == 0
        &&& self.running().len() == 0
        &&& self.submitted_changes().len() == 0
        &&& self.submitted_queries().len() == 0
    }

    /// Starts a container over a freshly initialized storage, with the
    /// default mailbox capacity.
    pub fn init(storage_args: W::InitArgs) -> (r: Self)
        ensures
            r.wf(),
            r.registry() == Seq::<CommEntryV>::empty(),
            r.boxes() == Seq::<MailboxV>::empty(),
            r.pending_sends() == Seq::<PendingSendV>::empty(),
            r.submitted_changes() == Seq::<ChangeV>::empty(),
            r.submitted_queries() == Seq::<DataQueryV>::empty(),
            r.running() == Seq::<ResolvingActionV>::empty(),
            r.change_reps() == Seq::<ChangeReplyV>::empty(),
            r.query_reps() == Seq::<QueryReplyV>::empty(),
            r.capacity() == MAILBOX_CAPACITY as nat,
            r.next_comm() == 1,
            r.quiescent(),
    {
        Self::init_with_capacity(storage_args, MAILBOX_CAPACITY)
    }

    /// Starts a container whose mailboxes hold at most `capacity` entries
    /// each before sends to them wait.  The intake itself is unbounded here:
    /// back-pressure on slow consumers lives entirely at the mailboxes.
    pub fn init_with_capacity(storage_args: W::InitArgs, capacity: usize) -> (r: Self)
        ensures
            r.wf(),
            r.registry() == Seq::<CommEntryV>::empty(),
            r.boxes() == Seq::<MailboxV>::empty(),
            r.pending_sends() == Seq::<PendingSendV>::empty(),
            r.submitted_changes() == Seq::<ChangeV>::empty(),
            r.submitted_queries() == Seq::<DataQueryV>::empty(),
            r.running() == Seq::<ResolvingActionV>::empty(),
            r.change_reps() == Seq::<ChangeReplyV>::empty(),
            r.query_reps() == Seq::<QueryReplyV>::empty(),
            r.capacity() == capacity as nat,
            r.next_comm() == 1,
            r.quiescent(),
    {
        let storage = W::init(storage_args);
        let r = DataContainer {
            reciver: Reciver::new(),
            update_sender: UpdateSender::new(capacity),
            comm_info: CommunicatorInfo::new(),
            storage,
            running_actions: Vec::new(),
            change_replies: Vec::new(),
            query_replies: Vec::new(),
            next_comm_id: 1,
            next_ticket: 1,
        };
        proof {
            assert(r.running() =~= Seq::<ResolvingActionV>::empty());
            assert(r.change_reps() =~= Seq::<ChangeReplyV>::empty());
            assert(r.query_reps() =~= Seq::<QueryReplyV>::empty());
        }
        r
    }

    /// Creates a client handle: mints a fresh id, opens its mailboxes and
    /// registers it with nothing known and no standing query.
    pub fn communicator(&mut self) -> (r: Communicator)
        requires
            old(self).wf(),
            old(self).next_comm() < u64::MAX,
        ensures
            final(self).wf(),
            r.uuid() == old(self).next_comm(),
            r.local_map() == Map::<u64, RecordV>::empty(),
            r.spec_has_changed(),
            final(self).next_comm() == old(self).next_comm() + 1,
            final(self).registry() == old(self).registry().push(
                CommEntryV {
                    id: old(self).next_comm(),
                    info: InfoV { known: Set::empty(), standing: None },
                },
            ),
            final(self).boxes() == old(self).boxes().push(
                MailboxV {
                    id: old(self).next_comm(),
                    changes: Seq::empty(),
                    fresh: Seq::empty(),
                },
            ),
            final(self).pending_sends() == old(self).pending_sends(),
            final(self).capacity() == old(self).capacity(),
            final(self).submitted_changes() == old(self).submitted_changes(),
            final(self).submitted_queries() == old(self).submitted_queries(),
            final(self).running() == old(self).running(),
            final(self).change_reps() == old(self).change_reps(),
            final(self).query_reps() == old(self).query_reps(),
            final(self).storage_contents() == old(self).storage_contents(),
            final(self).next_tick() == old(self).next_tick(),
    {
        let new_uuid = self.next_comm_id;
        self.next_comm_id = self.next_comm_id + 1;
        proof {
            if registered(self.registry(), new_uuid) {
                let t = index_of_id(self.registry(), new_uuid);
                assert(self.registry()[t].id < new_uuid);
            }
            assert(!has_box(self.boxes(), new_uuid));
        }
        self.comm_info.register_comm(new_uuid);
        self.update_sender.register_senders(new_uuid);
        proof {
            assert forall|id: u64|
                registered(self.registry(), id) == has_box(self.boxes(), id) by {
                let pre_reg = old(self).registry();
                let pre_boxes = old(self).boxes();
                if registered(self.registry(), id) {
                    let t = choose|t: int|
                        0 <= t < self.registry().len() && self.registry()[t].id == id;
                    if t < pre_reg.len() {
                        assert(registered(pre_reg, id));
                        let u = update_sender::index_of_box(pre_boxes, id);
                        assert(self.boxes()[u].id == id);
                    } else {
                        assert(self.boxes()[pre_boxes.len() as int].id == id);
                    }
                }
                if has_box(self.boxes(), id) {
                    let t = choose|t: int| 0 <= t < self.boxes().len() && self.boxes()[t].id == id;
                    if t < pre_boxes.len() {
                        assert(has_box(pre_boxes, id));
                        let u = index_of_id(pre_reg, id);
                        assert(self.registry()[u].id == id);
                    } else {
                        assert(self.registry()[pre_reg.len() as int].id == id);
                    }
                }
            }
        }
        Communicator::new(new_uuid)
    }

    /// Creates several client handles at once.
    pub fn communicators(&mut self, n: usize) -> (r: Vec<Communicator>)
        requires
            old(self).wf(),
            old(self).next_comm() + n < u64::MAX,
        ensures
            final(self).wf(),
            r.len() == n,
            forall|t: int|
                0 <= t < n ==> (#[trigger] r[t]).uuid() == old(self).next_comm() + t && r[t].local_map()
                    == Map::<u64, RecordV>::empty() && r[t].spec_has_changed(),
            final(self).next_comm() == old(self).next_comm() + n,
            final(self).pending_sends() == old(self).pending_sends(),
            final(self).submitted_changes() == old(self).submitted_changes(),
            final(self).submitted_queries() == old(self).submitted_queries(),
            final(self).running() == old(self).running(),
            final(self).storage_contents() == old(self).storage_contents(),
    {
        let mut out: Vec<Communicator> = Vec::new();
        let mut i: usize = 0;
        while i < n
            invariant
                i <= n,
                self.wf(),
                out.len() == i,
                self.next_comm() == old(self).next_comm() + i,
                old(self).next_comm() + n < u64::MAX,
                forall|t: int|
                    0 <= t < i ==> (#[trigger] out[t]).uuid() == old(self).next_comm() + t
                        && out[t].local_map() == Map::<u64, RecordV>::empty()
                        && out[t].spec_has_changed(),
                self.pending_sends() == old(self).pending_sends(),
                self.submitted_changes() == old(self).submitted_changes(),
                self.submitted_queries() == old(self).submitted_queries(),
                self.running() == old(self).running(),
                self.storage_contents() == old(self).storage_contents(),
            decreases n - i,
        {
            let c = self.communicator();
            out.push(c);
            i += 1;
        }
        out
    }

    /// Accepts a change submission, minting the ticket its result will be
    /// stored under.
    pub fn submit_change(&mut self, action: ChangeType) -> (r: u64)
        requires
            old(self).wf(),
            old(self).next_tick() < u64::MAX,
        ensures
            final(self).wf(),
            r == old(self).next_tick(),
            final(self).next_tick() == old(self).next_tick() + 1,
            final(self).submitted_changes() == old(self).submitted_changes().push(
                ChangeV { ticket: r, action: action.deep_view() },
            ),
            final(self).submitted_queries() == old(self).submitted_queries(),
            final(self).registry() == old(self).registry(),
            final(self).boxes() == old(self).boxes(),
            final(self).pending_sends() == old(self).pending_sends(),
            final(self).running() == old(self).running(),
            final(self).change_reps() == old(self).change_reps(),
            final(self).query_reps() == old(self).query_reps(),
            final(self).storage_contents() == old(self).storage_contents(),
            final(self).next_comm() == old(self).next_comm(),
            final(self).capacity() == old(self).capacity(),
    {
        let ticket = self.next_ticket;
        self.next_ticket = self.next_ticket + 1;
        self.reciver.submit_change(Change { ticket, action });
        ticket
    }

    /// Accepts a query submission, minting the ticket its result will be
    /// stored under.
    pub fn submit_query(&mut self, origin: u64, query_type: QueryType) -> (r: u64)
        requires
            old(self).wf(),
            old(self).next_tick() < u64::MAX,
        ensures
            final(self).wf(),
            r == old(self).next_tick(),
            final(self).next_tick() == old(self).next_tick() + 1,
            final(self).submitted_queries() == old(self).submitted_queries().push(
                DataQueryV { ticket: r, origin_uuid: origin, query_type: query_type.deep_view() },
            ),
            final(self).submitted_changes() == old(self).submitted_changes(),
            final(self).registry() == old(self).registry(),
            final(self).boxes() == old(self).boxes(),
            final(self).pending_sends() == old(self).pending_sends(),
            final(self).running() == old(self).running(),
            final(self).change_reps() == old(self).change_reps(),
            final(self).query_reps() == old(self).query_reps(),
            final(self).storage_contents() == old(self).storage_contents(),
            final(self).next_comm() == old(self).next_comm(),
            final(self).capacity() == old(self).capacity(),
    {
        let ticket = self.next_ticket;
        self.next_ticket = self.next_ticket + 1;
        self.reciver.submit_query(DataQuery { ticket, origin_uuid: origin, query_type });
        ticket
    }

    /// Hands a client everything its mailboxes hold.
    pub fn take_mail(&mut self, id: u64) -> (r: (Vec<DataChange>, Vec<FreshData>))
        requires
            old(self).wf(),
        ensures
            final(self).wf(),
            has_box(old(self).boxes(), id) ==> {
                let idx = update_sender::index_of_box(old(self).boxes(), id);
                r.0.deep_view() == old(self).boxes()[idx].changes && r.1.deep_view() == old(
                    self,
                ).boxes()[idx].fresh && final(self).boxes() == old(self).boxes().update(
                    idx,
                    MailboxV { id, changes: Seq::empty(), fresh: Seq::empty() },
                )
            },
            !has_box(old(self).boxes(), id) ==> r.0.deep_view() == Seq::<
                crate::change::DataChangeV,
            >::empty() && r.1.deep_view() == Seq::<Seq<RecordV>>::empty() && final(self).boxes()
                == old(self).boxes(),
            final(self).registry() == old(self).registry(),
            final(self).pending_sends() == old(self).pending_sends(),
            final(self).capacity() == old(self).capacity(),
            final(self).submitted_changes() == old(self).submitted_changes(),
            final(self).submitted_queries() == old(self).submitted_queries(),
            final(self).running() == old(self).running(),
            final(self).change_reps() == old(self).change_reps(),
            final(self).query_reps() == old(self).query_reps(),
            final(self).storage_contents() == old(self).storage_contents(),
            final(self).next_comm() == old(self).next_comm(),
            final(self).next_tick() == old(self).next_tick(),
    {
        let r = self.update_sender.take_mail(id);
        proof {
            if has_box(old(self).boxes(), id) {
                let idx = update_sender::index_of_box(old(self).boxes(), id);
                assert forall|uid: u64|
                    registered(self.registry(), uid) == has_box(self.boxes(), uid) by {
                    if has_box(old(self).boxes(), uid) {
                        let t = update_sender::index_of_box(old(self).boxes(), uid);
                        assert(self.boxes()[t].id == uid);
                    }
                    if has_box(self.boxes(), uid) {
                        let t = choose|t: int|
                            0 <= t < self.boxes().len() && self.boxes()[t].id == uid;
                        assert(old(self).boxes()[t].id == uid);
                    }
                }
            }
        }
        r
    }

    /// Removes a dropped client: its registry record and mailboxes go away;
    /// sends still pending for it are discarded on the next tick.
    pub fn remove_communicator(&mut self, id: u64)
        requires
            old(self).wf(),
        ensures
            final(self).wf(),
            !registered(final(self).registry(), id),
            forall|other: u64|
                other != id ==> registered(final(self).registry(), other) == registered(
                    old(self).registry(),
                    other,
                ),
            final(self).pending_sends() == old(self).pending_sends(),
            final(self).submitted_changes() == old(self).submitted_changes(),
            final(self).submitted_queries() == old(self).submitted_queries(),
            final(self).running() == old(self).running(),
            final(self).storage_contents() == old(self).storage_contents(),
    {
        proof {
            crate::container::lemma_registered_remove(old(self).registry(), id);
            crate::container::lemma_has_box_remove(old(self).boxes(), id);
        }
        self.comm_info.remove_comm(id);
        self.update_sender.remove_comm(id);
        proof {
            assert forall|uid: u64|
                registered(self.registry(), uid) == has_box(self.boxes(), uid) by {
                lemma_registered_remove_other(old(self).registry(), id, uid);
                lemma_has_box_remove_other(old(self).boxes(), id, uid);
            }
            assert forall|other: u64|
                other != id implies registered(self.registry(), other) == registered(
                old(self).registry(),
                other,
            ) by {
                lemma_registered_remove_other(old(self).registry(), id, other);
            }
        }
    }



    /// One cooperative tick, in contractual phase order: completed sends are
    /// reaped into mailboxes, completed storage operations are resolved into
    /// replies and fanned out through the interest registry, and finally the
    /// intake is drained into new storage operations.  A tick with nothing
    /// queued, pending or in flight changes nothing.
    pub fn state_update(&mut self)
        requires
            old(self).wf(),
        ensures
            final(self).wf(),
            final(self).capacity() == old(self).capacity(),
            final(self).next_comm() == old(self).next_comm(),
            final(self).next_tick() == old(self).next_tick(),
            final(self).submitted_changes() == Seq::<ChangeV>::empty(),
            final(self).submitted_queries() == Seq::<DataQueryV>::empty(),
            ({
                let reap = reap_fold(
                    ReapState { boxes: old(self).boxes(), kept: Seq::empty() },
                    old(self).pending_sends(),
                    old(self).capacity(),
                );
                let st0 = RouteState {
                    reg: old(self).registry(),
                    boxes: reap.boxes,
                    pend: reap.kept,
                    creps: old(self).change_reps(),
                    qreps: old(self).query_reps(),
                };
                let st1 = process_all(st0, old(self).running());
                &&& final(self).boxes() == reap.boxes
                &&& final(self).pending_sends() == st1.pend
                &&& final(self).change_reps() == st1.creps
                &&& final(self).query_reps() == st1.qreps
                &&& final(self).registry() == apply_standings(
                    st1.reg,
                    old(self).submitted_queries(),
                )
            }),
            final(self).running().len() == old(self).submitted_changes().len()
                + old(self).submitted_queries().len(),
            forall|t: int|
                0 <= t < old(self).submitted_changes().len() ==> change_entry_consistent(
                    old(self).submitted_changes()[t],
                    #[trigger] final(self).running()[t],
                ),
            forall|t: int|
                0 <= t < old(self).submitted_queries().len() ==> query_entry_consistent(
                    old(self).submitted_queries()[t],
                    #[trigger] final(self).running()[old(self).submitted_changes().len() + t],
                    final(self).storage_contents(),
                ),
            final(self).storage_contents() == apply_running_deltas(
                old(self).storage_contents(),
                final(self).running(),
            ),
            (forall|t: int|
                0 <= t < old(self).submitted_changes().len()
                    ==> (#[trigger] old(self).submitted_changes()[t]).action.is_empty())
                ==> final(self).storage_contents() == old(self).storage_contents(),
            old(self).quiescent() ==> {
                &&& final(self).registry() == old(self).registry()
                &&& final(self).boxes() == old(self).boxes()
                &&& final(self).pending_sends() == old(self).pending_sends()
                &&& final(self).change_reps() == old(self).change_reps()
                &&& final(self).query_reps() == old(self).query_reps()
                &&& final(self).running() == old(self).running()
                &&& final(self).storage_contents() == old(self).storage_contents()
            },
    {
        let ghost cap = self.capacity();
        let ghost boxes0 = self.boxes();
        let ghost pend0 = self.pending_sends();
        let ghost reg0 = self.registry();
        let ghost creps0 = self.change_reps();
        let ghost qreps0 = self.query_reps();
        let ghost r0 = self.running();
        let ghost m0 = self.storage_contents();
        // Reap completed dispatch sends into the mailboxes.
        self.update_sender.state_update();
        let ghost reap = reap_fold(ReapState { boxes: boxes0, kept: Seq::empty() }, pend0, cap);
        let ghost boxes1 = reap.boxes;
        proof {
            update_sender::lemma_reap_fold_boxes(
                ReapState { boxes: boxes0, kept: Seq::empty() },
                pend0,
                cap,
            );
        }
        // Resolve completed storage operations and fan their results out.
        let mut running: Vec<ResolvingAction> = Vec::new();
        core::mem::swap(&mut running, &mut self.running_actions);
        let ghost st0 = RouteState {
            reg: reg0,
            boxes: boxes1,
            pend: reap.kept,
            creps: creps0,
            qreps: qreps0,
        };
        proof {
            assert(running.deep_view() == r0);
            assert(self.running() =~= Seq::<ResolvingActionV>::empty());
            assert(r0.take(0) =~= Seq::<ResolvingActionV>::empty());
            assert(process_all(st0, r0.take(0)) == st0);
            assert(self.registry() == st0.reg);
            assert(self.pending_sends() == st0.pend);
        }
        let n = running.len();
        proof {
            assert(r0.len() == n as int);
        }
        let mut k: usize = 0;
        let mut running = running;
        while running.len() > 0
            invariant
                r0.len() == n as int,
                k <= r0.len(),
                running.deep_view() == r0.subrange(k as int, r0.len() as int),
                ({
                    let st = process_all(st0, r0.take(k as int));
                    &&& self.registry() == st.reg
                    &&& self.pending_sends() == st.pend
                    &&& self.change_reps() == st.creps
                    &&& self.query_reps() == st.qreps
                }),
                st0 == (RouteState {
                    reg: reg0,
                    boxes: boxes1,
                    pend: reap.kept,
                    creps: creps0,
                    qreps: qreps0,
                }),
                self.boxes() == boxes1,
                self.capacity() == cap,
                comm_info::distinct_ids(self.registry()),
                self.registry().len() == reg0.len(),
                forall|t: int|
                    0 <= t < reg0.len() ==> (#[trigger] self.registry()[t]).id == reg0[t].id,
                update_sender::distinct_box_ids(boxes1),
                update_sender::boxes_bounded(boxes1, cap),
                self.running() == Seq::<ResolvingActionV>::empty(),
                self.submitted_changes() == old(self).submitted_changes(),
                self.submitted_queries() == old(self).submitted_queries(),
                self.storage_contents() == m0,
                self.storage_inv(),
                self.next_comm() == old(self).next_comm(),
                self.next_tick() == old(self).next_tick(),
            decreases running.len(),
        {
            proof {
                assert(running.deep_view().len() == running@.len());
                assert(running.deep_view().len() == r0.len() - k);
            }
            let ghost tpre = running.deep_view();
            let act = running.remove(0);
            proof {
                assert(act.deep_view() == tpre[0]);
                assert(tpre[0] == r0.subrange(k as int, r0.len() as int)[0]);
                assert(act.deep_view() == r0[k as int]);
                assert forall|t2: int|
                    0 <= t2 < running.deep_view().len() implies running.deep_view()[t2] == r0[k + 1
                    + t2] by {
                    assert(running.deep_view()[t2] == tpre[t2 + 1]);
                    assert(tpre[t2 + 1] == r0.subrange(k as int, r0.len() as int)[t2 + 1]);
                }
                assert(running.deep_view() =~= r0.subrange(k + 1, r0.len() as int));
                assert(r0.take(k + 1).drop_last() =~= r0.take(k as int));
                assert(r0.take(k + 1).last() == r0[k as int]);
            }
            let ghost a = act.deep_view();
            let ghost stpre = process_all(st0, r0.take(k as int));
            proof {
                lemma_process_all_boxes(st0, r0.take(k as int));
                assert(stpre.boxes == boxes1);
            }
            let (reply, resolved) = act.resolve();
            match reply {
                ActionReply::Change(c) => {
                    proof {
                        assert(a is Change);
                    }
                    let ghost cpre = self.change_replies.deep_view();
                    self.change_replies.push(c);
                    proof {
                        assert(self.change_reps() =~= cpre.push(
                            self.change_replies.deep_view().last(),
                        ));
                    }
                },
                ActionReply::Query(q) => {
                    proof {
                        assert(a is Query);
                    }
                    let ghost qpre = self.query_replies.deep_view();
                    self.query_replies.push(q);
                    proof {
                        assert(self.query_reps() =~= qpre.push(
                            self.query_replies.deep_view().last(),
                        ));
                    }
                },
            }
            match resolved {
                Some(ResolvedAction::Change(change)) => {
                    proof {
                        assert(a is Change && a->Change_delta is Some);
                        assert(change.deep_view() == a->Change_delta->0);
                    }
                    self.update_communicators(&change);
                    proof {
                        let stnow = process_one(stpre, a);
                        assert(self.registry() == stnow.reg);
                        assert(self.pending_sends() == stnow.pend);
                        assert(self.change_reps() == stnow.creps);
                        assert(self.query_reps() == stnow.qreps);
                    }
                },
                Some(ResolvedAction::Query(fresh, uuid)) => {
                    proof {
                        assert(a is Query && a->Query_fresh is Some);
                        assert(fresh@ == a->Query_fresh->0);
                        assert(uuid == a->Query_origin);
                    }
                    self.return_query(uuid, fresh);
                    proof {
                        let stnow = process_one(stpre, a);
                        assert(self.registry() == stnow.reg);
                        assert(self.pending_sends() == stnow.pend);
                        assert(self.change_reps() == stnow.creps);
                        assert(self.query_reps() == stnow.qreps);
                    }
                },
                None => {
                    proof {
                        let stnow = process_one(stpre, a);
                        if a is Change {
                            assert(a->Change_delta is None);
                        } else {
                            assert(a->Query_fresh is None);
                        }
                        assert(self.registry() == stnow.reg);
                        assert(self.pending_sends() == stnow.pend);
                        assert(self.change_reps() == stnow.creps);
                        assert(self.query_reps() == stnow.qreps);
                    }
                },
            }
            proof {
                assert(process_all(st0, r0.take(k + 1)) == process_one(stpre, a));
            }
            k += 1;
        }
        proof {
            assert(running.deep_view().len() == running@.len());
            assert(k as int == r0.len());
            assert(r0.take(r0.len() as int) =~= r0);
        }
        // Drain new submissions into storage operations.
        let ghost cv_x = self.submitted_changes();
        let ghost qv_x = self.submitted_queries();
        let ghost rlen_x = self.running().len();
        self.recive_new_actions();
        proof {
            assert(cv_x == old(self).submitted_changes());
            assert(qv_x == old(self).submitted_queries());
            assert(rlen_x == 0);
            assert forall|t: int| 0 <= t < old(self).submitted_changes().len() implies
                change_entry_consistent(
                old(self).submitted_changes()[t],
                #[trigger] self.running()[t],
            ) by {
                assert(change_entry_consistent(cv_x[t], self.running()[rlen_x as int + t]));
                assert(rlen_x as int + t == t);
            }
            assert forall|t: int| 0 <= t < old(self).submitted_queries().len() implies
                query_entry_consistent(
                old(self).submitted_queries()[t],
                #[trigger] self.running()[old(self).submitted_changes().len() + t],
                self.storage_contents(),
            ) by {
                assert(query_entry_consistent(
                    qv_x[t],
                    self.running()[rlen_x as int + cv_x.len() + t],
                    self.storage_contents(),
                ));
                assert(rlen_x as int + cv_x.len() + t == old(self).submitted_changes().len() + t);
            }
            assert(self.storage_contents() == apply_running_deltas(
                m0,
                self.running().subrange(rlen_x as int, self.running().len() as int),
            ));
            assert(self.running().subrange(rlen_x as int, self.running().len() as int)
                =~= self.running());
            if forall|t: int|
                0 <= t < old(self).submitted_changes().len() ==> (#[trigger] old(
                    self,
                ).submitted_changes()[t]).action.is_empty() {
                assert forall|t: int| 0 <= t < cv_x.len() implies (#[trigger] cv_x[t]).action.is_empty() by {
                    assert(old(self).submitted_changes()[t].action.is_empty());
                }
            }
            // Registry and mailboxes keep the same ids, so they stay in sync.
            assert forall|id: u64|
                registered(self.registry(), id) == has_box(self.boxes(), id) by {
                if registered(self.registry(), id) {
                    let t = choose|t: int|
                        0 <= t < self.registry().len() && self.registry()[t].id == id;
                    assert(reg0[t].id == id);
                    assert(registered(reg0, id));
                    assert(has_box(boxes0, id));
                    let u = choose|u: int| 0 <= u < boxes0.len() && boxes0[u].id == id;
                    assert(self.boxes()[u].id == id);
                }
                if has_box(self.boxes(), id) {
                    let t = choose|t: int| 0 <= t < self.boxes().len() && self.boxes()[t].id == id;
                    assert(boxes0[t].id == id);
                    assert(has_box(boxes0, id));
                    assert(registered(reg0, id));
                    let u = choose|u: int| 0 <= u < reg0.len() && reg0[u].id == id;
                    assert(self.registry()[u].id == id);
                }
            }
            if old(self).quiescent() {
                assert(pend0 =~= Seq::<PendingSendV>::empty());
                assert(reap == (ReapState { boxes: boxes0, kept: Seq::empty() }));
                assert(r0 =~= Seq::<ResolvingActionV>::empty());
                assert(process_all(st0, r0) == st0);
                assert(old(self).submitted_queries() =~= Seq::<DataQueryV>::empty());
                assert(apply_standings(st0.reg, old(self).submitted_queries()) == st0.reg);
                assert(self.pending_sends() =~= old(self).pending_sends());
                assert(self.running() =~= old(self).running());
            }
        }
    }

    /// Fans one raw mutation out: computes every interested client's trimmed
    /// delta, folds it into that client's known keys, and queues the sends.
    fn update_communicators(&mut self, update: &DataChange)
        requires
            comm_info::distinct_ids(old(self).registry()),
            update_sender::distinct_box_ids(old(self).boxes()),
            update_sender::boxes_bounded(old(self).boxes(), old(self).capacity()),
        ensures
            final(self).registry() == apply_targets(
                old(self).registry(),
                interested(old(self).registry(), update.deep_view()),
            ),
            final(self).pending_sends() == old(self).pending_sends() + sends_of(
                interested(old(self).registry(), update.deep_view()),
            ),
            comm_info::distinct_ids(final(self).registry()),
            final(self).registry().len() == old(self).registry().len(),
            forall|t: int|
                0 <= t < old(self).registry().len() ==> (#[trigger] final(self).registry()[t]).id
                    == old(self).registry()[t].id,
            final(self).boxes() == old(self).boxes(),
            final(self).capacity() == old(self).capacity(),
            final(self).submitted_changes() == old(self).submitted_changes(),
            final(self).submitted_queries() == old(self).submitted_queries(),
            final(self).running() == old(self).running(),
            final(self).change_reps() == old(self).change_reps(),
            final(self).query_reps() == old(self).query_reps(),
            final(self).storage_contents() == old(self).storage_contents(),
            final(self).storage_inv() == old(self).storage_inv(),
            final(self).next_comm() == old(self).next_comm(),
            final(self).next_tick() == old(self).next_tick(),
    {
        let ghost reg0 = self.registry();
        let ghost dc = update.deep_view();
        let targets = self.comm_info.get_interested_comm(update);
        let ghost ts = targets.deep_view();
        proof {
            lemma_interested_registered(reg0, dc);
            assert(ts.take(0) =~= Seq::<TargetedChangeV>::empty());
        }
        let mut i: usize = 0;
        while i < targets.len()
            invariant
                i <= ts.len(),
                targets.deep_view() == ts,
                ts == interested(reg0, dc),
                forall|t: int|
                    0 <= t < ts.len() ==> registered(reg0, (#[trigger] ts[t]).target),
                self.registry() == apply_targets(reg0, ts.take(i as int)),
                comm_info::distinct_ids(self.registry()),
                self.registry().len() == reg0.len(),
                forall|t: int|
                    0 <= t < reg0.len() ==> (#[trigger] self.registry()[t]).id == reg0[t].id,
                self.boxes() == old(self).boxes(),
                self.update_sender@ == old(self).update_sender@,
                self.submitted_changes() == old(self).submitted_changes(),
                self.submitted_queries() == old(self).submitted_queries(),
                self.running() == old(self).running(),
                self.change_reps() == old(self).change_reps(),
                self.query_reps() == old(self).query_reps(),
                self.storage_contents() == old(self).storage_contents(),
                self.storage_inv() == old(self).storage_inv(),
                self.next_comm() == old(self).next_comm(),
                self.next_tick() == old(self).next_tick(),
            decreases targets.len() - i,
        {
            proof {
                assert(ts.len() == targets@.len());
            }
            let t = &targets[i];
            proof {
                assert(t.deep_view() == ts[i as int]);
                assert(registered(reg0, ts[i as int].target));
                let u = choose|u: int| 0 <= u < reg0.len() && reg0[u].id == ts[i as int].target;
                assert(self.registry()[u].id == ts[i as int].target);
                assert(registered(self.registry(), ts[i as int].target));
            }
            let ghost rpre = self.registry();
            self.comm_info.update_info_from_change(t.target, &t.change);
            proof {
                assert(self.registry() == apply_one_target(rpre, ts[i as int]));
                assert(ts.take(i + 1).drop_last() =~= ts.take(i as int));
                assert(ts.take(i + 1).last() == ts[i as int]);
                let idx = index_of_id(rpre, ts[i as int].target);
                assert forall|t2: int|
                    0 <= t2 < reg0.len() implies (#[trigger] self.registry()[t2]).id
                    == reg0[t2].id by {
                    if t2 != idx {
                        assert(self.registry()[t2] == rpre[t2]);
                    }
                }
                assert forall|x: int, y: int|
                    0 <= x < y < self.registry().len() implies self.registry()[x].id
                    != self.registry()[y].id by {
                    assert(self.registry()[x].id == reg0[x].id);
                    assert(self.registry()[y].id == reg0[y].id);
                }
            }
            i += 1;
        }
        proof {
            assert(ts.take(ts.len() as int) =~= ts);
        }
        self.update_sender.send_change(targets);
    }

    /// Routes a successful query reply: the originator's knowledge becomes
    /// exactly the reply's keys, and the reply is queued for it.
    fn return_query(&mut self, communicator: u64, values: FreshData)
        requires
            comm_info::distinct_ids(old(self).registry()),
            update_sender::distinct_box_ids(old(self).boxes()),
            update_sender::boxes_bounded(old(self).boxes(), old(self).capacity()),
        ensures
            final(self).registry() == (if registered(old(self).registry(), communicator) {
                old(self).registry().update(
                    index_of_id(old(self).registry(), communicator),
                    CommEntryV {
                        id: communicator,
                        info: InfoV {
                            known: seq_keys(values@).to_set(),
                            standing: info_of(old(self).registry(), communicator).standing,
                        },
                    },
                )
            } else {
                old(self).registry()
            }),
            final(self).pending_sends() == (if has_box(old(self).boxes(), communicator) {
                old(self).pending_sends().push(
                    PendingSendV { target: communicator, payload: SendPayloadV::Fresh(values@) },
                )
            } else {
                old(self).pending_sends()
            }),
            comm_info::distinct_ids(final(self).registry()),
            final(self).registry().len() == old(self).registry().len(),
            forall|t: int|
                0 <= t < old(self).registry().len() ==> (#[trigger] final(self).registry()[t]).id
                    == old(self).registry()[t].id,
            final(self).boxes() == old(self).boxes(),
            final(self).capacity() == old(self).capacity(),
            final(self).submitted_changes() == old(self).submitted_changes(),
            final(self).submitted_queries() == old(self).submitted_queries(),
            final(self).running() == old(self).running(),
            final(self).change_reps() == old(self).change_reps(),
            final(self).query_reps() == old(self).query_reps(),
            final(self).storage_contents() == old(self).storage_contents(),
            final(self).storage_inv() == old(self).storage_inv(),
            final(self).next_comm() == old(self).next_comm(),
            final(self).next_tick() == old(self).next_tick(),
    {
        let ghost rpre = self.registry();
        self.comm_info.update_info_from_query(communicator, &values);
        proof {
            if registered(rpre, communicator) {
                let idx = index_of_id(rpre, communicator);
                assert forall|t2: int|
                    0 <= t2 < rpre.len() implies (#[trigger] self.registry()[t2]).id
                    == rpre[t2].id by {
                    if t2 != idx {
                        assert(self.registry()[t2] == rpre[t2]);
                    }
                }
                assert forall|x: int, y: int|
                    0 <= x < y < self.registry().len() implies self.registry()[x].id
                    != self.registry()[y].id by {
                    assert(self.registry()[x].id == rpre[x].id);
                    assert(self.registry()[y].id == rpre[y].id);
                }
            }
        }
        self.update_sender.send_fresh_data(values, communicator);
    }

    /// Drains the intake: every drained query becomes its originator's
    /// standing query, every drained request is dispatched to storage, and
    /// the started operations join the in-flight list in drain order.
    #[verifier::rlimit(100)]
    fn recive_new_actions(&mut self)
        requires
            comm_info::distinct_ids(old(self).registry()),
            old(self).storage_inv(),
        ensures
            final(self).submitted_changes() == Seq::<ChangeV>::empty(),
            final(self).submitted_queries() == Seq::<DataQueryV>::empty(),
            final(self).registry() == apply_standings(
                old(self).registry(),
                old(self).submitted_queries(),
            ),
            comm_info::distinct_ids(final(self).registry()),
            final(self).registry().len() == old(self).registry().len(),
            forall|t: int|
                0 <= t < old(self).registry().len() ==> (#[trigger] final(self).registry()[t]).id
                    == old(self).registry()[t].id,
            final(self).running().len() == old(self).running().len() + old(
                self,
            ).submitted_changes().len() + old(self).submitted_queries().len(),
            forall|t: int|
                0 <= t < old(self).running().len() ==> final(self).running()[t] == old(
                    self,
                ).running()[t],
            forall|t: int|
                0 <= t < old(self).submitted_changes().len() ==> change_entry_consistent(
                    old(self).submitted_changes()[t],
                    #[trigger] final(self).running()[old(self).running().len() + t],
                ),
            forall|t: int|
                0 <= t < old(self).submitted_queries().len() ==> query_entry_consistent(
                    old(self).submitted_queries()[t],
                    #[trigger] final(self).running()[old(self).running().len() + old(
                        self,
                    ).submitted_changes().len() + t],
                    final(self).storage_contents(),
                ),
            final(self).storage_contents() == apply_running_deltas(
                old(self).storage_contents(),
                final(self).running().subrange(
                    old(self).running().len() as int,
                    final(self).running().len() as int,
                ),
            ),
            (forall|t: int|
                0 <= t < old(self).submitted_changes().len() ==> (#[trigger] old(
                    self,
                ).submitted_changes()[t]).action.is_empty()) ==> final(self).storage_contents()
                == old(self).storage_contents(),
            final(self).storage_inv(),
            final(self).boxes() == old(self).boxes(),
            final(self).pending_sends() == old(self).pending_sends(),
            final(self).capacity() == old(self).capacity(),
            final(self).change_reps() == old(self).change_reps(),
            final(self).query_reps() == old(self).query_reps(),
            final(self).next_comm() == old(self).next_comm(),
            final(self).next_tick() == old(self).next_tick(),
    {
        let ghost cv = self.submitted_changes();
        let ghost qv = self.submitted_queries();
        let ghost av = drained_actions(self.reciver@);
        let ghost r0 = self.running();
        let ghost reg0 = self.registry();
        let ghost m0 = self.storage_contents();
        let new_actions = self.reciver.recive_new();
        proof {
            assert(av.len() == cv.len() + qv.len());
            assert forall|t: int| 0 <= t < cv.len() implies av[t] == ActionV::Change(
                #[trigger] cv[t],
            ) by {}
            assert forall|t: int| 0 <= t < qv.len() implies av[cv.len() + t] == ActionV::Query(
                #[trigger] qv[t],
            ) by {}
            assert(av.take(0) =~= Seq::<ActionV>::empty());
            assert(actions_standings(reg0, av.take(0)) == reg0);
        }
        let n = new_actions.len();
        proof {
            assert(av.len() == n as int);
            assert(self.running().subrange(r0.len() as int, self.running().len() as int) =~= Seq::<
                ResolvingActionV,
            >::empty());
        }
        let mut k: usize = 0;
        let mut new_actions = new_actions;
        while new_actions.len() > 0
            invariant
                av.len() == n as int,
                av.len() == cv.len() + qv.len(),
                forall|t: int|
                    0 <= t < cv.len() ==> av[t] == ActionV::Change(#[trigger] cv[t]),
                forall|t: int|
                    0 <= t < qv.len() ==> av[cv.len() + t] == ActionV::Query(#[trigger] qv[t]),
                k <= av.len(),
                new_actions.deep_view() == av.subrange(k as int, av.len() as int),
                self.registry() == actions_standings(reg0, av.take(k as int)),
                comm_info::distinct_ids(self.registry()),
                self.registry().len() == reg0.len(),
                forall|t: int|
                    0 <= t < reg0.len() ==> (#[trigger] self.registry()[t]).id == reg0[t].id,
                self.running().len() == r0.len() + k,
                forall|t: int| 0 <= t < r0.len() ==> self.running()[t] == r0[t],
                forall|t: int|
                    0 <= t < k ==> ((#[trigger] av[t]) matches ActionV::Change(c)
                        ==> change_entry_consistent(
                        c,
                        #[trigger] self.running()[r0.len() + t],
                    )),
                forall|t: int|
                    0 <= t < k ==> ((#[trigger] av[t]) matches ActionV::Query(q)
                        ==> query_entry_consistent(
                        q,
                        #[trigger] self.running()[r0.len() + t],
                        self.storage_contents(),
                    )),
                self.storage_contents() == apply_running_deltas(
                    m0,
                    self.running().subrange(r0.len() as int, self.running().len() as int),
                ),
                (forall|t: int|
                    0 <= t < k ==> ((#[trigger] av[t]) matches ActionV::Change(c)
                        ==> c.action.is_empty())) ==> self.storage_contents() == m0,
                self.storage_inv(),
                self.submitted_changes() == Seq::<ChangeV>::empty(),
                self.submitted_queries() == Seq::<DataQueryV>::empty(),
                self.update_sender@ == old(self).update_sender@,
                self.change_reps() == old(self).change_reps(),
                self.query_reps() == old(self).query_reps(),
                self.next_comm() == old(self).next_comm(),
                self.next_tick() == old(self).next_tick(),
            decreases new_actions.len(),
        {
            proof {
                assert(new_actions.deep_view().len() == new_actions@.len());
                assert(new_actions.deep_view().len() == av.len() - k);
            }
            let ghost tpre = new_actions.deep_view();
            let action = new_actions.remove(0);
            proof {
                assert(action.deep_view() == tpre[0]);
                assert(tpre[0] == av.subrange(k as int, av.len() as int)[0]);
                assert(action.deep_view() == av[k as int]);
                assert forall|t2: int|
                    0 <= t2 < new_actions.deep_view().len() implies new_actions.deep_view()[t2]
                    == av[k + 1 + t2] by {
                    assert(new_actions.deep_view()[t2] == tpre[t2 + 1]);
                    assert(tpre[t2 + 1] == av.subrange(k as int, av.len() as int)[t2 + 1]);
                }
                assert(new_actions.deep_view() =~= av.subrange(k + 1, av.len() as int));
                assert(av.take(k + 1).drop_last() =~= av.take(k as int));
                assert(av.take(k + 1).last() == av[k as int]);
            }
            let ghost rpre = self.running();
            match action {
                Action::Change(change) => {
                    let ghost chv = change.deep_view();
                    let ghost mpre = self.storage_contents();
                    let ticket = change.ticket;
                    let response = handle_change(&mut self.storage, change.action);
                    let entry = ResolvingAction::Change(response, ticket);
                    let ghost ev = entry.deep_view();
                    self.running_actions.push(entry);
                    proof {
                        assert(self.running() =~= rpre.push(ev));
                        assert(change_entry_consistent(chv, ev));
                        let added_pre = rpre.subrange(r0.len() as int, rpre.len() as int);
                        let added_now = self.running().subrange(
                            r0.len() as int,
                            self.running().len() as int,
                        );
                        assert(added_now.drop_last() =~= added_pre);
                        assert(added_now.last() == ev);
                        assert(self.storage_contents() == apply_running_deltas(m0, added_now));
                        // Changes are drained before every query, so no query
                        // entry exists yet and their clauses stay vacuous.
                        assert(k < cv.len()) by {
                            if k >= cv.len() {
                                assert(av[cv.len() + (k - cv.len())] == ActionV::Query(
                                    qv[k - cv.len()],
                                ));
                            }
                        }
                        assert forall|t: int|
                            0 <= t < k + 1 implies ((#[trigger] av[t]) matches ActionV::Query(q)
                            ==> query_entry_consistent(
                            q,
                            self.running()[r0.len() + t],
                            self.storage_contents(),
                        )) by {
                            assert(av[t] == ActionV::Change(cv[t]));
                        }
                    }
                },
                Action::Query(query) => {
                    let ghost quv = query.deep_view();
                    let ghost regpre = self.registry();
                    self.comm_info.update_query(&query);
                    proof {
                        assert(self.registry() == apply_one_standing(regpre, quv)) by {
                            if registered(regpre, quv.origin_uuid) {
                                let idx = index_of_id(regpre, quv.origin_uuid);
                            }
                        }
                        let ghost regnow = self.registry();
                        if registered(regpre, quv.origin_uuid) {
                            let idx = index_of_id(regpre, quv.origin_uuid);
                            assert forall|t2: int|
                                0 <= t2 < reg0.len() implies (#[trigger] regnow[t2]).id
                                == regpre[t2].id by {
                                if t2 != idx {
                                    assert(regnow[t2] == regpre[t2]);
                                }
                            }
                            assert forall|x: int, y: int|
                                0 <= x < y < regnow.len() implies regnow[x].id != regnow[y].id by {
                                assert(regnow[x].id == reg0[x].id);
                                assert(regnow[y].id == reg0[y].id);
                            }
                        }
                    }
                    let origin = query.origin_uuid;
                    let ticket = query.ticket;
                    let ghost mpre = self.storage_contents();
                    let response = handle_query(&mut self.storage, query.query_type);
                    let entry = ResolvingAction::Query(response, origin, ticket);
                    let ghost ev = entry.deep_view();
                    self.running_actions.push(entry);
                    proof {
                        assert(self.running() =~= rpre.push(ev));
                        assert(self.storage_contents() == mpre);
                        assert(query_entry_consistent(quv, ev, self.storage_contents()));
                        let added_pre = rpre.subrange(r0.len() as int, rpre.len() as int);
                        let added_now = self.running().subrange(
                            r0.len() as int,
                            self.running().len() as int,
                        );
                        assert(added_now.drop_last() =~= added_pre);
                        assert(added_now.last() == ev);
                        assert(self.storage_contents() == apply_running_deltas(m0, added_now));
                    }
                },
            }
            k += 1;
        }
        proof {
            assert(new_actions.deep_view().len() == new_actions@.len());
            assert(k as int == av.len());
            assert(av.take(av.len() as int) =~= av);
            lemma_actions_standings_split(reg0, cv, qv, av);
            assert forall|t: int| 0 <= t < cv.len() implies change_entry_consistent(
                cv[t],
                #[trigger] self.running()[r0.len() + t],
            ) by {
                assert(av[t] == ActionV::Change(cv[t]));
            }
            assert forall|t: int| 0 <= t < qv.len() implies query_entry_consistent(
                qv[t],
                #[trigger] self.running()[r0.len() + cv.len() + t],
                self.storage_contents(),
            ) by {
                let t2 = cv.len() + t;
                assert(av[t2] == ActionV::Query(qv[t]));
                assert((av[t2]) matches ActionV::Query(q) ==> query_entry_consistent(
                    q,
                    self.running()[r0.len() + t2],
                    self.storage_contents(),
                ));
                assert(self.running()[r0.len() + t2] == self.running()[r0.len() + cv.len() + t]);
            }
            if forall|t: int|
                0 <= t < cv.len() ==> (#[trigger] cv[t]).action.is_empty() {
                assert forall|t: int|
                    0 <= t < av.len() implies ((#[trigger] av[t]) matches ActionV::Change(c)
                    ==> c.action.is_empty()) by {
                    if t < cv.len() {
                        assert(av[t] == ActionV::Change(cv[t]));
                        assert(cv[t].action.is_empty());
                    } else {
                        assert(av[t] == ActionV::Query(qv[t - cv.len()]));
                    }
                }
            }
        }
    }

    /// Takes the stored result of a change submission, if it has resolved.
    pub fn take_change_result(&mut self, ticket: u64) -> (r: Option<ChangeResult>)
        ensures
            final(self).change_reps().len() <= old(self).change_reps().len(),
            r is Some ==> exists|t: int|
                0 <= t < old(self).change_reps().len() && (#[trigger] old(self).change_reps()[t]).ticket
                    == ticket && old(self).change_reps()[t].ok == (r->0 is Success) && final(self).change_reps()
                    == old(self).change_reps().remove(t),
            r is None ==> final(self).change_reps() == old(self).change_reps() && (forall|t: int|
                0 <= t < old(self).change_reps().len() ==> (#[trigger] old(
                    self,
                ).change_reps()[t]).ticket != ticket),
    {
        let mut i: usize = 0;
        while i < self.change_replies.len()
            invariant
                i <= self.change_replies.len(),
                self.change_replies.deep_view() == old(self).change_reps(),
                forall|t: int| 0 <= t < i ==> old(self).change_reps()[t].ticket != ticket,
            decreases self.change_replies.len() - i,
        {
            if self.change_replies[i].ticket == ticket {
                let ghost pre = self.change_replies.deep_view();
                let reply = self.change_replies.remove(i);
                proof {
                    assert(reply.deep_view() == pre[i as int]);
                    assert(self.change_replies.deep_view() =~= pre.remove(i as int));
                    assert(old(self).change_reps()[i as int].ticket == ticket);
                }
                return Some(reply.result);
            }
            i += 1;
        }
        None
    }

    /// Takes the stored result of a query submission, if it has resolved.
    pub fn take_query_result(&mut self, ticket: u64) -> (r: Option<QueryResult>)
        ensures
            final(self).query_reps().len() <= old(self).query_reps().len(),
            r is Some ==> exists|t: int|
                0 <= t < old(self).query_reps().len() && (#[trigger] old(self).query_reps()[t]).ticket
                    == ticket && old(self).query_reps()[t].ok == (r->0 is Success) && final(self).query_reps()
                    == old(self).query_reps().remove(t),
            r is None ==> final(self).query_reps() == old(self).query_reps() && (forall|t: int|
                0 <= t < old(self).query_reps().len() ==> (#[trigger] old(
                    self,
                ).query_reps()[t]).ticket != ticket),
    {
        let mut i: usize = 0;
        while i < self.query_replies.len()
            invariant
                i <= self.query_replies.len(),
                self.query_replies.deep_view() == old(self).query_reps(),
                forall|t: int| 0 <= t < i ==> old(self).query_reps()[t].ticket != ticket,
            decreases self.query_replies.len() - i,
        {
            if self.query_replies[i].ticket == ticket {
                let ghost pre = self.query_replies.deep_view();
                let reply = self.query_replies.remove(i);
                proof {
                    assert(reply.deep_view() == pre[i as int]);
                    assert(self.query_replies.deep_view() =~= pre.remove(i as int));
                    assert(old(self).query_reps()[i as int].ticket == ticket);
                }
                return Some(reply.result);
            }
            i += 1;
        }
        None
    }
}



/// The mutations one tick produces for a recipient while resolving the
/// completed operations, in production order.
pub open spec fn tick_deltas_for(st: RouteState, actions: Seq<ResolvingActionV>, u: u64) -> Seq<
    crate::change::DataChangeV,
>
    decreases actions.len(),
{
    if actions.len() == 0 {
        Seq::empty()
    } else {
        let prev = tick_deltas_for(st, actions.drop_last(), u);
        let stprev = process_all(st, actions.drop_last());
        match actions.last() {
            ResolvingActionV::Change { delta: Some(dc), .. } => prev
                + update_sender::changes_for(interested(stprev.reg, dc), u),
            _ => prev,
        }
    }
}

/// Per-recipient order across one whole tick: after the completed sends are
/// reaped and the completed operations are resolved, the mutations in
/// transit to a recipient are exactly those that were in transit before,
/// followed by the mutations the tick produced for it, in production order.
/// Together with the mailboxes handing their content over in order, every
/// recipient observes the produced mutations first-in first-out.
pub proof fn lemma_tick_preserves_fifo(
    boxes0: Seq<MailboxV>,
    pend0: Seq<PendingSendV>,
    cap: nat,
    st0: RouteState,
    actions: Seq<ResolvingActionV>,
    u: u64,
)
    requires
        update_sender::distinct_box_ids(boxes0),
        has_box(boxes0, u),
        st0 == (RouteState {
            reg: st0.reg,
            boxes: reap_fold(ReapState { boxes: boxes0, kept: Seq::empty() }, pend0, cap).boxes,
            pend: reap_fold(ReapState { boxes: boxes0, kept: Seq::empty() }, pend0, cap).kept,
            creps: st0.creps,
            qreps: st0.qreps,
        }),
    ensures
        ({
            let reap = reap_fold(ReapState { boxes: boxes0, kept: Seq::empty() }, pend0, cap);
            let st1 = process_all(st0, actions);
            update_sender::box_of(reap.boxes, u).changes + update_sender::pending_changes_to(
                st1.pend,
                u,
            ) == update_sender::box_of(boxes0, u).changes + update_sender::pending_changes_to(
                pend0,
                u,
            ) + tick_deltas_for(st0, actions, u)
        }),
{
    let reap = reap_fold(ReapState { boxes: boxes0, kept: Seq::empty() }, pend0, cap);
    update_sender::lemma_reap_preserves_transit(
        ReapState { boxes: boxes0, kept: Seq::empty() },
        pend0,
        cap,
        u,
    );
    assert(update_sender::pending_changes_to(Seq::empty(), u) =~= Seq::<
        crate::change::DataChangeV,
    >::empty());
    assert(update_sender::box_of(reap.boxes, u).changes + update_sender::pending_changes_to(
        reap.kept,
        u,
    ) == update_sender::box_of(boxes0, u).changes + update_sender::pending_changes_to(pend0, u))
        by {
        assert(update_sender::box_of(boxes0, u).changes + Seq::<
            crate::change::DataChangeV,
        >::empty() =~= update_sender::box_of(boxes0, u).changes);
        assert(update_sender::box_of(boxes0, u).changes + update_sender::pending_changes_to(
            pend0,
            u,
        ) =~= (update_sender::box_of(boxes0, u).changes + Seq::<
            crate::change::DataChangeV,
        >::empty()) + update_sender::pending_changes_to(pend0, u));
    }
    lemma_process_transit(st0, actions, u);
    let st1 = process_all(st0, actions);
    assert(update_sender::box_of(reap.boxes, u).changes + update_sender::pending_changes_to(
        st1.pend,
        u,
    ) =~= (update_sender::box_of(reap.boxes, u).changes + update_sender::pending_changes_to(
        st0.pend,
        u,
    )) + tick_deltas_for(st0, actions, u));
    assert((update_sender::box_of(boxes0, u).changes + update_sender::pending_changes_to(
        pend0,
        u,
    )) + tick_deltas_for(st0, actions, u) =~= update_sender::box_of(boxes0, u).changes
        + update_sender::pending_changes_to(pend0, u) + tick_deltas_for(st0, actions, u));
}

/// Resolving completed operations only appends to a recipient's pending
/// mutations, in production order.
proof fn lemma_process_transit(st: RouteState, actions: Seq<ResolvingActionV>, u: u64)
    ensures
        update_sender::pending_changes_to(process_all(st, actions).pend, u)
            == update_sender::pending_changes_to(st.pend, u) + tick_deltas_for(st, actions, u),
    decreases actions.len(),
{
    if actions.len() == 0 {
        assert(update_sender::pending_changes_to(st.pend, u) + tick_deltas_for(st, actions, u)
            =~= update_sender::pending_changes_to(st.pend, u));
    } else {
        let a0 = actions.drop_last();
        lemma_process_transit(st, a0, u);
        let stprev = process_all(st, a0);
        let stnow = process_one(stprev, actions.last());
        match actions.last() {
            ResolvingActionV::Change { delta, ticket } => {
                match delta {
                    Some(dc) => {
                        let ts = interested(stprev.reg, dc);
                        update_sender::lemma_send_appends_transit(stprev.pend, ts, u);
                        assert(update_sender::pending_changes_to(stnow.pend, u)
                            =~= update_sender::pending_changes_to(st.pend, u) + tick_deltas_for(
                            st,
                            actions,
                            u,
                        ));
                    },
                    None => {
                        assert(update_sender::pending_changes_to(stnow.pend, u)
                            =~= update_sender::pending_changes_to(st.pend, u) + tick_deltas_for(
                            st,
                            actions,
                            u,
                        ));
                    },
                }
            },
            ResolvingActionV::Query { fresh, origin, ticket } => {
                match fresh {
                    Some(f) => {
                        if has_box(stprev.boxes, origin) {
                            let p = PendingSendV {
                                target: origin,
                                payload: SendPayloadV::Fresh(f),
                            };
                            assert(stnow.pend == stprev.pend.push(p));
                            assert(stnow.pend.drop_last() =~= stprev.pend);
                            assert(update_sender::pending_changes_to(stnow.pend, u)
                                == update_sender::pending_changes_to(stprev.pend, u));
                        }
                        assert(update_sender::pending_changes_to(stnow.pend, u)
                            =~= update_sender::pending_changes_to(st.pend, u) + tick_deltas_for(
                            st,
                            actions,
                            u,
                        ));
                    },
                    None => {
                        assert(update_sender::pending_changes_to(stnow.pend, u)
                            =~= update_sender::pending_changes_to(st.pend, u) + tick_deltas_for(
                            st,
                            actions,
                            u,
                        ));
                    },
                }
            },
        }
    }
}

/// Resolving completed operations never changes the mailboxes themselves.
proof fn lemma_process_all_boxes(st: RouteState, actions: Seq<ResolvingActionV>)
    ensures
        process_all(st, actions).boxes == st.boxes,
    decreases actions.len(),
{
    if actions.len() > 0 {
        lemma_process_all_boxes(st, actions.drop_last());
    }
}

/// Recording the drained actions' standing queries, change actions skipped.
pub open spec fn actions_standings(reg: Seq<CommEntryV>, av: Seq<ActionV>) -> Seq<CommEntryV>
    decreases av.len(),
{
    if av.len() == 0 {
        reg
    } else {
        let r = actions_standings(reg, av.drop_last());
        match av.last() {
            ActionV::Change(_) => r,
            ActionV::Query(q) => apply_one_standing(r, q),
        }
    }
}

/// Drained actions are all changes then all queries, so folding their
/// standings equals folding the queries alone.
proof fn lemma_actions_standings_split(
    reg: Seq<CommEntryV>,
    cv: Seq<ChangeV>,
    qv: Seq<DataQueryV>,
    av: Seq<ActionV>,
)
    requires
        av.len() == cv.len() + qv.len(),
        forall|t: int| 0 <= t < cv.len() ==> av[t] == ActionV::Change(#[trigger] cv[t]),
        forall|t: int| 0 <= t < qv.len() ==> av[cv.len() + t] == ActionV::Query(#[trigger] qv[t]),
    ensures
        actions_standings(reg, av) == apply_standings(reg, qv),
    decreases qv.len(),
{
    if qv.len() == 0 {
        assert forall|t: int| 0 <= t < av.len() implies (#[trigger] av[t]) is Change by {
            assert(av[t] == ActionV::Change(cv[t]));
        }
        lemma_actions_standings_changes_only(reg, av);
    } else {
        let av0 = av.drop_last();
        let qv0 = qv.drop_last();
        assert(av.last() == ActionV::Query(qv.last())) by {
            assert(av[cv.len() + qv.len() - 1] == ActionV::Query(qv[qv.len() - 1]));
        }
        assert forall|t: int| 0 <= t < cv.len() implies av0[t] == ActionV::Change(
            #[trigger] cv[t],
        ) by {
            assert(av0[t] == av[t]);
        }
        assert forall|t: int| 0 <= t < qv0.len() implies av0[cv.len() + t] == ActionV::Query(
            #[trigger] qv0[t],
        ) by {
            assert(av0[cv.len() + t] == av[cv.len() + t]);
            assert(qv0[t] == qv[t]);
        }
        lemma_actions_standings_split(reg, cv, qv0, av0);
    }
}

/// A drain that held only changes records no standing query.
proof fn lemma_actions_standings_changes_only(reg: Seq<CommEntryV>, av: Seq<ActionV>)
    requires
        forall|t: int| 0 <= t < av.len() ==> (#[trigger] av[t]) is Change,
    ensures
        actions_standings(reg, av) == reg,
    decreases av.len(),
{
    if av.len() > 0 {
        assert(av[av.len() - 1] is Change);
        assert forall|t: int| 0 <= t < av.drop_last().len() implies (#[trigger] av.drop_last()[t])
            is Change by {
            assert(av.drop_last()[t] == av[t]);
        }
        lemma_actions_standings_changes_only(reg, av.drop_last());
    }
}

/// Every fan-out target of a mutation is a registered client.
proof fn lemma_interested_registered(entries: Seq<CommEntryV>, dc: crate::change::DataChangeV)
    ensures
        forall|t: int|
            0 <= t < interested(entries, dc).len() ==> registered(
                entries,
                (#[trigger] interested(entries, dc)[t]).target,
            ),
    decreases entries.len(),
{
    if entries.len() > 0 {
        let e0 = entries.drop_last();
        lemma_interested_registered(e0, dc);
        assert forall|t: int|
            0 <= t < interested(entries, dc).len() implies registered(
            entries,
            (#[trigger] interested(entries, dc)[t]).target,
        ) by {
            let rest = interested(e0, dc);
            if t < rest.len() {
                assert(interested(entries, dc)[t] == rest[t]);
                assert(registered(e0, rest[t].target));
                let u = choose|u: int| 0 <= u < e0.len() && e0[u].id == rest[t].target;
                assert(entries[u].id == rest[t].target);
            } else {
                assert(interested(entries, dc)[t].target == entries.last().id);
                assert(entries[entries.len() - 1].id == entries.last().id);
            }
        }
    }
}

/// Removing an id from a registry leaves exactly the other ids registered.
proof fn lemma_registered_remove(reg: Seq<CommEntryV>, id: u64)
    requires
        comm_info::distinct_ids(reg),
    ensures
        registered(reg, id) ==> !registered(reg.remove(index_of_id(reg, id)), id),
{
    if registered(reg, id) {
        let idx = index_of_id(reg, id);
        let r2 = reg.remove(idx);
        if registered(r2, id) {
            let t = choose|t: int| 0 <= t < r2.len() && r2[t].id == id;
            if t < idx {
                assert(reg[t].id == id);
            } else {
                assert(reg[t + 1].id == id);
            }
        }
    }
}

/// Another id's registration is untouched by a removal.
proof fn lemma_registered_remove_other(reg: Seq<CommEntryV>, id: u64, other: u64)
    requires
        comm_info::distinct_ids(reg),
    ensures
        other != id && registered(reg, id) ==> registered(reg.remove(index_of_id(reg, id)), other)
            == registered(reg, other),
        registered(reg, id) ==> !registered(reg.remove(index_of_id(reg, id)), id),
{
    lemma_registered_remove(reg, id);
    if other != id && registered(reg, id) {
        let idx = index_of_id(reg, id);
        let r2 = reg.remove(idx);
        if registered(reg, other) {
            let t = choose|t: int| 0 <= t < reg.len() && reg[t].id == other;
            assert(t != idx);
            if t < idx {
                assert(r2[t].id == other);
            } else {
                assert(r2[t - 1].id == other);
            }
        }
        if registered(r2, other) {
            let t = choose|t: int| 0 <= t < r2.len() && r2[t].id == other;
            if t < idx {
                assert(reg[t].id == other);
            } else {
                assert(reg[t + 1].id == other);
            }
        }
    }
}

/// Removing an id from the mailboxes leaves exactly the other ids present.
proof fn lemma_has_box_remove(boxes: Seq<MailboxV>, id: u64)
    requires
        update_sender::distinct_box_ids(boxes),
    ensures
        has_box(boxes, id) ==> !has_box(
            boxes.remove(update_sender::index_of_box(boxes, id)),
            id,
        ),
{
    if has_box(boxes, id) {
        let idx = update_sender::index_of_box(boxes, id);
        let b2 = boxes.remove(idx);
        if has_box(b2, id) {
            let t = choose|t: int| 0 <= t < b2.len() && b2[t].id == id;
            if t < idx {
                assert(boxes[t].id == id);
            } else {
                assert(boxes[t + 1].id == id);
            }
        }
    }
}

/// Another id's mailbox is untouched by a removal.
proof fn lemma_has_box_remove_other(boxes: Seq<MailboxV>, id: u64, other: u64)
    requires
        update_sender::distinct_box_ids(boxes),
    ensures
        other != id && has_box(boxes, id) ==> has_box(
            boxes.remove(update_sender::index_of_box(boxes, id)),
            other,
        ) == has_box(boxes, other),
        has_box(boxes, id) ==> !has_box(
            boxes.remove(update_sender::index_of_box(boxes, id)),
            id,
        ),
{
    lemma_has_box_remove(boxes, id);
    if other != id && has_box(boxes, id) {
        let idx = update_sender::index_of_box(boxes, id);
        let b2 = boxes.remove(idx);
        if has_box(boxes, other) {
            let t = choose|t: int| 0 <= t < boxes.len() && boxes[t].id == other;
            assert(t != idx);
            if t < idx {
                assert(b2[t].id == other);
            } else {
                assert(b2[t - 1].id == other);
            }
        }
        if has_box(b2, other) {
            let t = choose|t: int| 0 <= t < b2.len() && b2[t].id == other;
            if t < idx {
                assert(boxes[t].id == other);
            } else {
                assert(boxes[t + 1].id == other);
            }
        }
    }
}

} // verus!
