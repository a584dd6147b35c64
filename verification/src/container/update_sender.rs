//! The dispatch pool and the per-client mailboxes: every produced delta or
//! query reply becomes a pending send, and each tick moves pending sends
//! into their bounded mailboxes without ever reordering what one recipient
//! sees.

use vstd::prelude::*;

use crate::change::{DataChange, DataChangeV};
use crate::container::comm_info::{TargetedChange, TargetedChangeV};
use crate::query::FreshData;
use crate::RecordV;

verus! {

/// One payload on its way to a client.
#[derive(Debug)]
pub enum SendPayload {
    Change(DataChange),
    Fresh(FreshData),
}

/// Ghost mirror of a [`SendPayload`].
pub ghost enum SendPayloadV {
    Change(DataChangeV),
    Fresh(Seq<RecordV>),
}

impl DeepView for SendPayload {
    type V = SendPayloadV;

    open spec fn deep_view(&self) -> SendPayloadV {
        match self {
            SendPayload::Change(dc) => SendPayloadV::Change(dc.deep_view()),
            SendPayload::Fresh(f) => SendPayloadV::Fresh(f@),
        }
    }
}

/// A send the pool still holds: the payload and its recipient.
#[derive(Debug)]
pub struct PendingSend {
    pub target: u64,
    pub payload: SendPayload,
}

/// Ghost mirror of a [`PendingSend`].
pub ghost struct PendingSendV {
    pub target: u64,
    pub payload: SendPayloadV,
}

impl DeepView for PendingSend {
    type V = PendingSendV;

    open spec fn deep_view(&self) -> PendingSendV {
        PendingSendV { target: self.target, payload: self.payload.deep_view() }
    }
}

/// One client's two bounded mailboxes: mutations and query replies.
#[derive(Debug)]
pub struct Mailbox {
    pub id: u64,
    pub changes: Vec<DataChange>,
    pub fresh: Vec<FreshData>,
}

/// Ghost mirror of a [`Mailbox`].
pub ghost struct MailboxV {
    pub id: u64,
    pub changes: Seq<DataChangeV>,
    pub fresh: Seq<Seq<RecordV>>,
}

impl DeepView for Mailbox {
    type V = MailboxV;

    open spec fn deep_view(&self) -> MailboxV {
        MailboxV {
            id: self.id,
            changes: self.changes.deep_view(),
            fresh: self.fresh.deep_view(),
        }
    }
}

/// Whether the two payloads travel through the same mailbox (same kind).
pub open spec fn same_kind(a: SendPayloadV, b: SendPayloadV) -> bool {
    (a is Change && b is Change) || (a is Fresh && b is Fresh)
}

/// Whether a mailbox exists for the id.
pub open spec fn has_box(boxes: Seq<MailboxV>, id: u64) -> bool {
    exists|t: int| 0 <= t < boxes.len() && boxes[t].id == id
}

/// The position of the mailbox for the id.
pub open spec fn index_of_box(boxes: Seq<MailboxV>, id: u64) -> int {
    choose|t: int| 0 <= t < boxes.len() && boxes[t].id == id
}

/// The mailbox for the id.
pub open spec fn box_of(boxes: Seq<MailboxV>, id: u64) -> MailboxV {
    boxes[index_of_box(boxes, id)]
}

/// No two mailboxes share an id.
pub open spec fn distinct_box_ids(boxes: Seq<MailboxV>) -> bool {
    forall|i: int, j: int| 0 <= i < j < boxes.len() ==> boxes[i].id != boxes[j].id
}

/// Every queue respects the capacity.
pub open spec fn boxes_bounded(boxes: Seq<MailboxV>, cap: nat) -> bool {
    forall|t: int|
        0 <= t < boxes.len() ==> (#[trigger] boxes[t]).changes.len() <= cap && boxes[t].fresh.len()
            <= cap
}

/// The mailbox has room for the payload's kind.
pub open spec fn can_accept(b: MailboxV, p: SendPayloadV, cap: nat) -> bool {
    match p {
        SendPayloadV::Change(_) => b.changes.len() < cap,
        SendPayloadV::Fresh(_) => b.fresh.len() < cap,
    }
}

/// The payload appended to the matching queue of the mailbox.
pub open spec fn box_push(b: MailboxV, p: SendPayloadV) -> MailboxV {
    match p {
        SendPayloadV::Change(dc) => MailboxV { id: b.id, changes: b.changes.push(dc), fresh: b.fresh },
        SendPayloadV::Fresh(f) => MailboxV { id: b.id, changes: b.changes, fresh: b.fresh.push(f) },
    }
}

/// An earlier send to the same recipient through the same mailbox is still
/// held back, so this one must wait to preserve order.
pub open spec fn held_back(kept: Seq<PendingSendV>, p: PendingSendV) -> bool {
    exists|t: int|
        0 <= t < kept.len() && (#[trigger] kept[t]).target == p.target && same_kind(
            kept[t].payload,
            p.payload,
        )
}

/// The state the reap pass threads: the mailboxes so far and the sends that
/// must stay pending.
pub ghost struct ReapState {
    pub boxes: Seq<MailboxV>,
    pub kept: Seq<PendingSendV>,
}

/// One pending send processed: a send to a dropped recipient is discarded, a
/// deliverable send lands in its mailbox, anything else stays pending.
pub open spec fn reap_step(st: ReapState, p: PendingSendV, cap: nat) -> ReapState {
    if !has_box(st.boxes, p.target) {
        st
    } else if !held_back(st.kept, p) && can_accept(box_of(st.boxes, p.target), p.payload, cap) {
        ReapState {
            boxes: st.boxes.update(
                index_of_box(st.boxes, p.target),
                box_push(box_of(st.boxes, p.target), p.payload),
            ),
            kept: st.kept,
        }
    } else {
        ReapState { boxes: st.boxes, kept: st.kept.push(p) }
    }
}

/// The whole reap pass, front of the pool first.
pub open spec fn reap_fold(st: ReapState, pending: Seq<PendingSendV>, cap: nat) -> ReapState
    decreases pending.len(),
{
    if pending.len() == 0 {
        st
    } else {
        reap_fold(reap_step(st, pending[0], cap), pending.subrange(1, pending.len() as int), cap)
    }
}

/// The mutations on their way to one recipient: first what already sits in
/// its mailbox, then the pending change sends addressed to it, in order.
pub open spec fn pending_changes_to(pending: Seq<PendingSendV>, u: u64) -> Seq<DataChangeV>
    decreases pending.len(),
{
    if pending.len() == 0 {
        Seq::empty()
    } else {
        let rest = pending_changes_to(pending.drop_last(), u);
        let p = pending.last();
        if p.target == u && p.payload is Change {
            rest.push(p.payload->Change_0)
        } else {
            rest
        }
    }
}

/// The dispatch pool and the mailboxes it feeds.
#[derive(Debug)]
pub struct UpdateSender {
    boxes: Vec<Mailbox>,
    pending: Vec<PendingSend>,
    capacity: usize,
}

/// Ghost mirror of the [`UpdateSender`].
pub ghost struct UpdateSenderV {
    pub boxes: Seq<MailboxV>,
    pub pending: Seq<PendingSendV>,
    pub capacity: nat,
}

impl View for UpdateSender {
    type V = UpdateSenderV;

    closed spec fn view(&self) -> UpdateSenderV {
        UpdateSenderV {
            boxes: self.boxes.deep_view(),
            pending: self.pending.deep_view(),
            capacity: self.capacity as nat,
        }
    }
}

/// The mutations in transit to one recipient: mailbox first, pool after.
pub open spec fn transit_changes(v: UpdateSenderV, u: u64) -> Seq<DataChangeV> {
    (if has_box(v.boxes, u) {
        box_of(v.boxes, u).changes
    } else {
        Seq::empty()
    }) + pending_changes_to(v.pending, u)
}

impl UpdateSender {
    pub open spec fn wf(self) -> bool {
        distinct_box_ids(self@.boxes) && boxes_bounded(self@.boxes, self@.capacity)
    }

    /// An empty pool whose mailboxes will hold at most `capacity` entries
    /// each.
    pub fn new(capacity: usize) -> (r: Self)
        ensures
            r.wf(),
            r@.boxes == Seq::<MailboxV>::empty(),
            r@.pending == Seq::<PendingSendV>::empty(),
            r@.capacity == capacity as nat,
    {
        let r = UpdateSender { boxes: Vec::new(), pending: Vec::new(), capacity };
        proof {
            assert(r@.boxes =~= Seq::<MailboxV>::empty());
            assert(r@.pending =~= Seq::<PendingSendV>::empty());
        }
        r
    }

    /// Opens the mailboxes of a newly created client.
    pub fn register_senders(&mut self, communicator_uuid: u64)
        requires
            old(self).wf(),
            !has_box(old(self)@.boxes, communicator_uuid),
        ensures
            final(self).wf(),
            final(self)@.boxes == old(self)@.boxes.push(
                MailboxV {
                    id: communicator_uuid,
                    changes: Seq::empty(),
                    fresh: Seq::empty(),
                },
            ),
            final(self)@.pending == old(self)@.pending,
            final(self)@.capacity == old(self)@.capacity,
    {
        let ghost pre = self@.boxes;
        let b = Mailbox { id: communicator_uuid, changes: Vec::new(), fresh: Vec::new() };
        proof {
            assert(b.deep_view().changes =~= Seq::<DataChangeV>::empty());
            assert(b.deep_view().fresh =~= Seq::<Seq<RecordV>>::empty());
        }
        self.boxes.push(b);
        proof {
            assert(self@.boxes =~= pre.push(self@.boxes.last()));
            assert forall|x: int, y: int| 0 <= x < y < self@.boxes.len() implies self@.boxes[x].id
                != self@.boxes[y].id by {
                if y < pre.len() {
                } else {
                    assert(self@.boxes[x] == pre[x]);
                    assert(pre[x].id != communicator_uuid);
                }
            }
        }
    }

    /// Closes the mailboxes of a dropped client; sends still pending for it
    /// are discarded by the next reap pass.
    pub fn remove_comm(&mut self, communicator_uuid: u64)
        requires
            old(self).wf(),
        ensures
            final(self).wf(),
            has_box(old(self)@.boxes, communicator_uuid) ==> final(self)@.boxes == old(
                self,
            )@.boxes.remove(index_of_box(old(self)@.boxes, communicator_uuid)),
            !has_box(old(self)@.boxes, communicator_uuid) ==> final(self)@.boxes == old(
                self,
            )@.boxes,
            final(self)@.pending == old(self)@.pending,
            final(self)@.capacity == old(self)@.capacity,
    {
        let ghost pre = self@.boxes;
        let found = self.position_of(communicator_uuid);
        match found {
            Some(at) => {
                self.boxes.remove(at);
                proof {
                    assert(self@.boxes =~= pre.remove(at as int));
                    let idx = index_of_box(pre, communicator_uuid);
                    if idx != at {
                        assert(pre[idx].id == pre[at as int].id);
                        assert(false);
                    }
                    assert forall|x: int, y: int|
                        0 <= x < y < self@.boxes.len() implies self@.boxes[x].id
                        != self@.boxes[y].id by {
                        let px: int = if x < at {
                            x
                        } else {
                            x + 1
                        };
                        let py: int = if y < at {
                            y
                        } else {
                            y + 1
                        };
                        assert(self@.boxes[x] == pre[px] && self@.boxes[y] == pre[py]);
                    }
                }
            },
            None => {},
        }
    }

    /// The position of the mailbox for the id, if any.
    fn position_of(&self, id: u64) -> (r: Option<usize>)
        requires
            self.wf(),
        ensures
            match r {
                Some(i) => i < self@.boxes.len() && self@.boxes[i as int].id == id && i
                    == index_of_box(self@.boxes, id) && has_box(self@.boxes, id),
                None => !has_box(self@.boxes, id),
            },
    {
        let mut i: usize = 0;
        while i < self.boxes.len()
            invariant
                self.wf(),
                i <= self.boxes.len(),
                forall|t: int| 0 <= t < i ==> self@.boxes[t].id != id,
            decreases self.boxes.len() - i,
        {
            if self.boxes[i].id == id {
                proof {
                    let idx = index_of_box(self@.boxes, id);
                    if idx != i {
                        assert(self@.boxes[idx].id == self@.boxes[i as int].id);
                        assert(self.wf());
                    }
                }
                return Some(i);
            }
            i += 1;
        }
        None
    }

    /// Queues one trimmed mutation per interested recipient, in fan-out
    /// order.
    pub fn send_change(&mut self, targets: Vec<TargetedChange>)
        requires
            old(self).wf(),
        ensures
            final(self).wf(),
            final(self)@.boxes == old(self)@.boxes,
            final(self)@.capacity == old(self)@.capacity,
            final(self)@.pending == old(self)@.pending + sends_of(targets.deep_view()),
    {
        let ghost ts = targets.deep_view();
        let ghost pre = self@.pending;
        let n = targets.len();
        proof {
            assert(ts.len() == n as int);
        }
        let mut targets = targets;
        let mut i: usize = 0;
        proof {
            assert(pre + sends_of(ts.take(0)) =~= pre);
            assert(targets.deep_view() =~= ts.subrange(0, ts.len() as int));
        }
        while targets.len() > 0
            invariant
                ts.len() == n as int,
                i <= ts.len(),
                targets.deep_view() == ts.subrange(i as int, ts.len() as int),
                self@.boxes == old(self)@.boxes,
                self@.capacity == old(self)@.capacity,
                self.wf(),
                self@.pending == pre + sends_of(ts.take(i as int)),
            decreases targets.len(),
        {
            proof {
                assert(targets.deep_view().len() == targets@.len());
                assert(targets.deep_view().len() == ts.len() - i);
            }
            let ghost tpre = targets.deep_view();
            let t = targets.remove(0);
            proof {
                assert(t.deep_view() == tpre[0]);
                assert(tpre[0] == ts.subrange(i as int, ts.len() as int)[0]);
                assert(t.deep_view() == ts[i as int]);
                assert forall|t2: int|
                    0 <= t2 < targets.deep_view().len() implies targets.deep_view()[t2] == ts[
                    i + 1 + t2] by {
                    assert(targets.deep_view()[t2] == tpre[t2 + 1]);
                    assert(tpre[t2 + 1] == ts.subrange(i as int, ts.len() as int)[t2 + 1]);
                }
                assert(targets.deep_view() =~= ts.subrange(i + 1, ts.len() as int));
            }
            let p = PendingSend { target: t.target, payload: SendPayload::Change(t.change) };
            let ghost ppre = self@.pending;
            self.pending.push(p);
            proof {
                assert(self@.pending =~= ppre.push(p.deep_view()));
                assert(sends_of(ts.take(i + 1)) =~= sends_of(ts.take(i as int)).push(
                    PendingSendV {
                        target: ts[i as int].target,
                        payload: SendPayloadV::Change(ts[i as int].change),
                    },
                )) by {
                    assert(ts.take(i + 1).drop_last() =~= ts.take(i as int));
                    lemma_sends_of_push(ts.take(i as int), ts[i as int]);
                }
                assert(self@.pending =~= pre + sends_of(ts.take(i + 1)));
            }
            i += 1;
        }
        proof {
            assert(ts.take(ts.len() as int) =~= ts);
        }
    }

    /// Queues a query reply for its originator; a reply to a client that no
    /// longer has a mailbox is dropped.
    pub fn send_fresh_data(&mut self, fresh_data: FreshData, target: u64)
        requires
            old(self).wf(),
        ensures
            final(self).wf(),
            final(self)@.boxes == old(self)@.boxes,
            final(self)@.capacity == old(self)@.capacity,
            has_box(old(self)@.boxes, target) ==> final(self)@.pending == old(
                self,
            )@.pending.push(
                PendingSendV { target, payload: SendPayloadV::Fresh(fresh_data@) },
            ),
            !has_box(old(self)@.boxes, target) ==> final(self)@.pending == old(self)@.pending,
    {
        let found = self.position_of(target);
        match found {
            Some(_) => {
                let ghost ppre = self@.pending;
                self.pending.push(
                    PendingSend { target, payload: SendPayload::Fresh(fresh_data) },
                );
                proof {
                    assert(self@.pending =~= ppre.push(self@.pending.last()));
                }
            },
            None => {},
        }
    }

    /// The reap pass: walks the pool front to back, delivers every send whose
    /// mailbox has room and which no earlier held-back send to the same
    /// mailbox must precede, discards sends to dropped recipients, and keeps
    /// the rest pending in order.
    pub fn state_update(&mut self)
        requires
            old(self).wf(),
        ensures
            final(self).wf(),
            final(self)@.capacity == old(self)@.capacity,
            ({
                let r = reap_fold(
                    ReapState { boxes: old(self)@.boxes, kept: Seq::empty() },
                    old(self)@.pending,
                    old(self)@.capacity,
                );
                final(self)@.boxes == r.boxes && final(self)@.pending == r.kept
            }),
    {
        let ghost pending0 = self@.pending;
        let ghost cap = self@.capacity;
        let mut kept: Vec<PendingSend> = Vec::new();
        let ghost st0 = ReapState { boxes: self@.boxes, kept: Seq::empty() };
        proof {
            assert(kept.deep_view() =~= Seq::<PendingSendV>::empty());
            assert(self@.pending =~= pending0.subrange(0, pending0.len() as int));
            assert(reap_fold_partial(st0, pending0, 0, cap) == st0);
            assert((ReapState { boxes: self@.boxes, kept: kept.deep_view() }) == st0);
        }
        while self.pending.len() > 0
            invariant
                self.wf(),
                self@.capacity == cap,
                exists|i: int|
                    0 <= i <= pending0.len() && self@.pending
                        == #[trigger] pending0.subrange(i, pending0.len() as int) && (ReapState {
                        boxes: self@.boxes,
                        kept: kept.deep_view(),
                    }) == reap_fold_partial(st0, pending0, i, cap),
            decreases self.pending.len(),
        {
            let ghost i = choose|i: int|
                0 <= i <= pending0.len() && self@.pending == #[trigger] pending0.subrange(
                    i,
                    pending0.len() as int,
                ) && (ReapState { boxes: self@.boxes, kept: kept.deep_view() })
                    == reap_fold_partial(st0, pending0, i, cap);
            proof {
                assert(self@.pending.len() == self.pending@.len());
                assert(self@.pending.len() == pending0.len() - i);
            }
            let ghost qpre = self@.pending;
            let p = self.pending.remove(0);
            proof {
                assert(p.deep_view() == qpre[0]);
                assert(qpre[0] == pending0.subrange(i, pending0.len() as int)[0]);
                assert(p.deep_view() == pending0[i]);
                assert forall|t2: int|
                    0 <= t2 < self@.pending.len() implies self@.pending[t2] == pending0[i + 1
                    + t2] by {
                    assert(self@.pending[t2] == qpre[t2 + 1]);
                    assert(qpre[t2 + 1] == pending0.subrange(i, pending0.len() as int)[t2 + 1]);
                }
                assert(self@.pending =~= pending0.subrange(i + 1, pending0.len() as int));
            }
            let ghost stpre = ReapState { boxes: self@.boxes, kept: kept.deep_view() };
            let found = self.position_of(p.target);
            match found {
                Some(at) => {
                    let room = match &p.payload {
                        SendPayload::Change(_) => self.boxes[at].changes.len() < self.capacity,
                        SendPayload::Fresh(_) => self.boxes[at].fresh.len() < self.capacity,
                    };
                    let blocked = Self::holds_back(&kept, &p);
                    if room && !blocked {
                        let ghost bpre = self@.boxes;
                        let ghost spre = self.boxes@;
                        let mut b = self.boxes.remove(at);
                        let ghost bdpre = b.deep_view();
                        proof {
                            assert(bdpre == bpre[at as int]);
                        }
                        match p.payload {
                            SendPayload::Change(dc) => {
                                let ghost cpre = b.changes.deep_view();
                                b.changes.push(dc);
                                proof {
                                    assert(b.changes.deep_view() =~= cpre.push(dc.deep_view()));
                                    assert(b.deep_view().changes =~= box_push(
                                        bdpre,
                                        pending0[i].payload,
                                    ).changes);
                                    assert(b.deep_view().fresh =~= box_push(
                                        bdpre,
                                        pending0[i].payload,
                                    ).fresh);
                                }
                            },
                            SendPayload::Fresh(f) => {
                                let ghost fpre = b.fresh.deep_view();
                                b.fresh.push(f);
                                proof {
                                    assert(b.fresh.deep_view() =~= fpre.push(f@));
                                    assert(b.deep_view().changes =~= box_push(
                                        bdpre,
                                        pending0[i].payload,
                                    ).changes);
                                    assert(b.deep_view().fresh =~= box_push(
                                        bdpre,
                                        pending0[i].payload,
                                    ).fresh);
                                }
                            },
                        }
                        proof {
                            assert(b.deep_view() == box_push(bpre[at as int], pending0[i].payload));
                        }
                        self.boxes.insert(at, b);
                        proof {
                            assert(self.boxes@ =~= spre.update(at as int, self.boxes@[at as int]));
                            assert(self.boxes@[at as int] == b);
                            assert forall|t: int|
                                0 <= t < self@.boxes.len() implies self@.boxes[t] == bpre.update(
                                at as int,
                                box_push(bpre[at as int], pending0[i].payload),
                            )[t] by {
                                if t == at {
                                    assert(self@.boxes[t] == b.deep_view());
                                } else {
                                    assert(self.boxes@[t] == spre[t]);
                                }
                            }
                            assert(self@.boxes =~= bpre.update(
                                at as int,
                                box_push(bpre[at as int], pending0[i].payload),
                            ));
                            assert(reap_step(stpre, pending0[i], cap) == (ReapState {
                                boxes: self@.boxes,
                                kept: kept.deep_view(),
                            }));
                            assert forall|x: int, y: int|
                                0 <= x < y < self@.boxes.len() implies self@.boxes[x].id
                                != self@.boxes[y].id by {
                                assert(self@.boxes[x].id == bpre[x].id);
                                assert(self@.boxes[y].id == bpre[y].id);
                            }
                        }
                    } else {
                        let ghost kpre = kept.deep_view();
                        kept.push(p);
                        proof {
                            assert(kept.deep_view() =~= kpre.push(pending0[i]));
                            assert(reap_step(stpre, pending0[i], cap) == (ReapState {
                                boxes: self@.boxes,
                                kept: kept.deep_view(),
                            }));
                        }
                    }
                },
                None => {
                    proof {
                        assert(reap_step(stpre, pending0[i], cap) == stpre);
                    }
                },
            }
            proof {
                lemma_reap_fold_partial_step(st0, pending0, i, cap);
                assert((ReapState { boxes: self@.boxes, kept: kept.deep_view() })
                    == reap_fold_partial(st0, pending0, i + 1, cap));
            }
        }
        self.pending = kept;
        proof {
            let i = choose|i: int|
                0 <= i <= pending0.len() && pending0.subrange(i, pending0.len() as int)
                    =~= Seq::<PendingSendV>::empty() && (ReapState {
                    boxes: self@.boxes,
                    kept: self@.pending,
                }) == reap_fold_partial(st0, pending0, i, cap);
            assert(i == pending0.len());
            lemma_reap_fold_partial_full(st0, pending0, cap);
        }
    }

    /// Whether an already held-back send goes to the same mailbox.
    fn holds_back(kept: &Vec<PendingSend>, p: &PendingSend) -> (r: bool)
        ensures
            r == held_back(kept.deep_view(), p.deep_view()),
    {
        let mut i: usize = 0;
        while i < kept.len()
            invariant
                i <= kept.len(),
                forall|t: int|
                    0 <= t < i ==> !((#[trigger] kept.deep_view()[t]).target
                        == p.deep_view().target && same_kind(
                        kept.deep_view()[t].payload,
                        p.deep_view().payload,
                    )),
            decreases kept.len() - i,
        {
            let kt = &kept[i];
            let same = kt.target == p.target && match (&kt.payload, &p.payload) {
                (SendPayload::Change(_), SendPayload::Change(_)) => true,
                (SendPayload::Fresh(_), SendPayload::Fresh(_)) => true,
                _ => false,
            };
            if same {
                proof {
                    assert(kept.deep_view()[i as int].target == p.deep_view().target);
                }
                return true;
            }
            i += 1;
        }
        false
    }

    /// Hands a client everything its mailboxes hold, emptying them.
    pub fn take_mail(&mut self, id: u64) -> (r: (Vec<DataChange>, Vec<FreshData>))
        requires
            old(self).wf(),
        ensures
            final(self).wf(),
            final(self)@.pending == old(self)@.pending,
            final(self)@.capacity == old(self)@.capacity,
            has_box(old(self)@.boxes, id) ==> {
                let idx = index_of_box(old(self)@.boxes, id);
                r.0.deep_view() == old(self)@.boxes[idx].changes && r.1.deep_view() == old(
                    self,
                )@.boxes[idx].fresh && final(self)@.boxes == old(self)@.boxes.update(
                    idx,
                    MailboxV { id, changes: Seq::empty(), fresh: Seq::empty() },
                )
            },
            !has_box(old(self)@.boxes, id) ==> r.0.deep_view() == Seq::<DataChangeV>::empty()
                && r.1.deep_view() == Seq::<Seq<RecordV>>::empty() && final(self)@.boxes == old(
                self,
            )@.boxes,
    {
        let found = self.position_of(id);
        match found {
            Some(at) => {
                let ghost bpre = self@.boxes;
                let mut b = self.boxes.remove(at);
                let changes = b.changes;
                let fresh = b.fresh;
                let empty_box = Mailbox { id, changes: Vec::new(), fresh: Vec::new() };
                proof {
                    assert(empty_box.deep_view().changes =~= Seq::<DataChangeV>::empty());
                    assert(empty_box.deep_view().fresh =~= Seq::<Seq<RecordV>>::empty());
                }
                self.boxes.insert(at, empty_box);
                proof {
                    assert(self@.boxes =~= bpre.update(
                        at as int,
                        MailboxV { id, changes: Seq::empty(), fresh: Seq::empty() },
                    ));
                    assert forall|x: int, y: int|
                        0 <= x < y < self@.boxes.len() implies self@.boxes[x].id
                        != self@.boxes[y].id by {
                        assert(self@.boxes[x].id == bpre[x].id);
                        assert(self@.boxes[y].id == bpre[y].id);
                    }
                }
                (changes, fresh)
            },
            None => {
                let r = (Vec::<DataChange>::new(), Vec::<FreshData>::new());
                proof {
                    assert(r.0.deep_view() =~= Seq::<DataChangeV>::empty());
                    assert(r.1.deep_view() =~= Seq::<Seq<RecordV>>::empty());
                }
                r
            },
        }
    }
}

/// Whether the pool still holds a mutation addressed to the recipient.
pub open spec fn has_pending_change_to(pending: Seq<PendingSendV>, u: u64) -> bool {
    exists|t: int|
        0 <= t < pending.len() && (#[trigger] pending[t]).target == u && pending[t].payload
            is Change
}

/// Progress under back-pressure: a mutation stays pending through a reap
/// pass only when its recipient's change mailbox ended the pass full.  Each
/// tick therefore either delivers every pending mutation for a recipient or
/// leaves it a full mailbox to drain, so a recipient that keeps draining
/// receives everything the pool holds for it.
pub proof fn lemma_reap_progress(st: ReapState, pending: Seq<PendingSendV>, cap: nat, u: u64)
    requires
        distinct_box_ids(st.boxes),
        boxes_bounded(st.boxes, cap),
        has_box(st.boxes, u),
        has_pending_change_to(st.kept, u) ==> box_of(st.boxes, u).changes.len() == cap,
    ensures
        ({
            let r = reap_fold(st, pending, cap);
            has_pending_change_to(r.kept, u) ==> box_of(r.boxes, u).changes.len() == cap
        }),
    decreases pending.len(),
{
    if pending.len() > 0 {
        let p = pending[0];
        let st1 = reap_step(st, p, cap);
        lemma_reap_step_boxes(st, p, cap);
        lemma_reap_step_box_facts(st, p, cap, u);
        // The step keeps the invariant: a held-back mutation for `u` implies
        // its mailbox is full, and a full change mailbox never grows or
        // shrinks during the pass.
        assert(has_pending_change_to(st1.kept, u) ==> box_of(st1.boxes, u).changes.len()
            == cap) by {
            if has_pending_change_to(st1.kept, u) {
                if !has_box(st.boxes, p.target) {
                    assert(st1 == st);
                } else if !held_back(st.kept, p) && can_accept(
                    box_of(st.boxes, p.target),
                    p.payload,
                    cap,
                ) {
                    // Accepted: the kept set is unchanged, and an accepted
                    // change for `u` is impossible while one is held back.
                    assert(st1.kept == st.kept);
                    assert(box_of(st.boxes, u).changes.len() == cap);
                    if p.target == u {
                        lemma_box_update_self(st.boxes, u, p.payload);
                        if p.payload is Change {
                            let t = choose|t: int|
                                0 <= t < st.kept.len() && (#[trigger] st.kept[t]).target == u
                                    && st.kept[t].payload is Change;
                            assert(held_back(st.kept, p));
                        }
                        assert(box_of(st1.boxes, u).changes.len() == cap);
                    } else {
                        lemma_box_update_other(st.boxes, u, p.target, p.payload);
                    }
                } else {
                    // Held back or no room: the mailboxes are unchanged.
                    assert(st1.boxes == st.boxes);
                    assert(st1.kept == st.kept.push(p));
                    let t = choose|t: int|
                        0 <= t < st1.kept.len() && (#[trigger] st1.kept[t]).target == u
                            && st1.kept[t].payload is Change;
                    if t < st.kept.len() {
                        assert(has_pending_change_to(st.kept, u));
                    } else {
                        assert(p.target == u && p.payload is Change);
                        if held_back(st.kept, p) {
                            let w = choose|w: int|
                                0 <= w < st.kept.len() && (#[trigger] st.kept[w]).target
                                    == p.target && same_kind(st.kept[w].payload, p.payload);
                            assert(has_pending_change_to(st.kept, u));
                        } else {
                            assert(!can_accept(box_of(st.boxes, u), p.payload, cap));
                            let idx = index_of_box(st.boxes, u);
                            assert(box_of(st.boxes, u).changes.len() <= cap);
                        }
                    }
                }
            }
        }
        lemma_reap_progress(st1, pending.subrange(1, pending.len() as int), cap, u);
    }
}

/// The trimmed mutations a fan-out list carries for one recipient, in
/// fan-out order.
pub open spec fn changes_for(ts: Seq<TargetedChangeV>, u: u64) -> Seq<DataChangeV>
    decreases ts.len(),
{
    if ts.len() == 0 {
        Seq::empty()
    } else {
        let rest = changes_for(ts.drop_last(), u);
        if ts.last().target == u {
            rest.push(ts.last().change)
        } else {
            rest
        }
    }
}

/// Producing a fan-out appends to each recipient's in-transit mutations, in
/// fan-out order: together with the reap pass preserving the in-transit
/// sequence and the mailbox draining in order, every recipient observes the
/// produced mutations first-in first-out.
pub proof fn lemma_send_appends_transit(
    pend: Seq<PendingSendV>,
    ts: Seq<TargetedChangeV>,
    u: u64,
)
    ensures
        pending_changes_to(pend + sends_of(ts), u) == pending_changes_to(pend, u) + changes_for(
            ts,
            u,
        ),
    decreases ts.len(),
{
    if ts.len() == 0 {
        assert(pend + sends_of(ts) =~= pend);
        assert(pending_changes_to(pend, u) + changes_for(ts, u) =~= pending_changes_to(pend, u));
    } else {
        let ts0 = ts.drop_last();
        lemma_send_appends_transit(pend, ts0, u);
        let whole = pend + sends_of(ts);
        assert(whole.drop_last() =~= pend + sends_of(ts0)) by {
            assert(sends_of(ts).len() == ts.len());
            assert forall|t: int| 0 <= t < whole.len() - 1 implies whole.drop_last()[t] == (pend
                + sends_of(ts0))[t] by {
                if t < pend.len() {
                } else {
                    assert(whole[t] == sends_of(ts)[t - pend.len()]);
                    assert(sends_of(ts0)[t - pend.len()] == sends_of(ts)[t - pend.len()]);
                }
            }
        }
        assert(whole.last() == sends_of(ts)[ts.len() - 1]);
        if ts.last().target == u {
            assert(pending_changes_to(whole, u) =~= pending_changes_to(pend, u) + changes_for(
                ts,
                u,
            ));
        } else {
            assert(pending_changes_to(whole, u) =~= pending_changes_to(pend, u) + changes_for(
                ts,
                u,
            ));
        }
    }
}

/// The pending sends a fan-out list turns into, in order.
pub open spec fn sends_of(ts: Seq<TargetedChangeV>) -> Seq<PendingSendV> {
    ts.map_values(
        |t: TargetedChangeV| PendingSendV {
            target: t.target,
            payload: SendPayloadV::Change(t.change),
        },
    )
}

proof fn lemma_sends_of_push(ts: Seq<TargetedChangeV>, t: TargetedChangeV)
    ensures
        sends_of(ts.push(t)) == sends_of(ts).push(
            PendingSendV { target: t.target, payload: SendPayloadV::Change(t.change) },
        ),
{
    assert(sends_of(ts.push(t)) =~= sends_of(ts).push(
        PendingSendV { target: t.target, payload: SendPayloadV::Change(t.change) },
    ));
}

/// The reap pass applied to the first `i` pending sends.
pub open spec fn reap_fold_partial(
    st: ReapState,
    pending: Seq<PendingSendV>,
    i: int,
    cap: nat,
) -> ReapState
    decreases i,
{
    if i <= 0 {
        st
    } else {
        reap_step(reap_fold_partial(st, pending, i - 1, cap), pending[i - 1], cap)
    }
}

proof fn lemma_reap_fold_partial_step(st: ReapState, pending: Seq<PendingSendV>, i: int, cap: nat)
    requires
        0 <= i < pending.len(),
    ensures
        reap_fold_partial(st, pending, i + 1, cap) == reap_step(
            reap_fold_partial(st, pending, i, cap),
            pending[i],
            cap,
        ),
{
}

/// Processing the whole pool front-first equals the partial fold at the end.
proof fn lemma_reap_fold_partial_full(st: ReapState, pending: Seq<PendingSendV>, cap: nat)
    ensures
        reap_fold(st, pending, cap) == reap_fold_partial(st, pending, pending.len() as int, cap),
    decreases pending.len(),
{
    if pending.len() > 0 {
        let st1 = reap_step(st, pending[0], cap);
        let rest = pending.subrange(1, pending.len() as int);
        lemma_reap_fold_partial_full(st1, rest, cap);
        assert forall|j: int| 0 <= j <= rest.len() implies reap_fold_partial(st1, rest, j, cap)
            == reap_fold_partial(st, pending, j + 1, cap) by {
            lemma_reap_fold_partial_shift(st, pending, j, cap);
        }
    }
}

proof fn lemma_reap_fold_partial_shift(st: ReapState, pending: Seq<PendingSendV>, j: int, cap: nat)
    requires
        pending.len() > 0,
        0 <= j <= pending.len() - 1,
    ensures
        reap_fold_partial(
            reap_step(st, pending[0], cap),
            pending.subrange(1, pending.len() as int),
            j,
            cap,
        ) == reap_fold_partial(st, pending, j + 1, cap),
    decreases j,
{
    let st1 = reap_step(st, pending[0], cap);
    let rest = pending.subrange(1, pending.len() as int);
    if j == 0 {
        assert(reap_fold_partial(st1, rest, 0, cap) == st1);
        assert(reap_fold_partial(st, pending, 0, cap) == st);
        assert(reap_fold_partial(st, pending, 1, cap) == reap_step(st, pending[0], cap));
    } else {
        lemma_reap_fold_partial_shift(st, pending, j - 1, cap);
        assert(rest[j - 1] == pending[j]);
        assert(reap_fold_partial(st1, rest, j, cap) == reap_step(
            reap_fold_partial(st1, rest, j - 1, cap),
            rest[j - 1],
            cap,
        ));
        assert(reap_fold_partial(st, pending, j + 1, cap) == reap_step(
            reap_fold_partial(st, pending, j, cap),
            pending[j],
            cap,
        ));
    }
}

/// Per-recipient order is never disturbed by a reap pass: for a recipient
/// that keeps its mailbox, the mutations in transit to it (mailbox content
/// followed by pending change sends) are the same sequence before and after
/// the pass.
pub proof fn lemma_reap_preserves_transit(
    st: ReapState,
    pending: Seq<PendingSendV>,
    cap: nat,
    u: u64,
)
    requires
        has_box(st.boxes, u),
        distinct_box_ids(st.boxes),
    ensures
        ({
            let r = reap_fold(st, pending, cap);
            has_box(r.boxes, u) && distinct_box_ids(r.boxes) && box_of(r.boxes, u).changes
                + pending_changes_to(r.kept, u) == box_of(st.boxes, u).changes
                + pending_changes_to(st.kept, u) + pending_changes_to(pending, u)
        }),
    decreases pending.len(),
{
    if pending.len() == 0 {
        assert(pending_changes_to(pending, u) =~= Seq::<DataChangeV>::empty());
        assert(box_of(st.boxes, u).changes + pending_changes_to(st.kept, u) + Seq::<
            DataChangeV,
        >::empty() =~= box_of(st.boxes, u).changes + pending_changes_to(st.kept, u));
    } else {
        let p = pending[0];
        let st1 = reap_step(st, p, cap);
        let rest = pending.subrange(1, pending.len() as int);
        lemma_reap_step_box_facts(st, p, cap, u);
        lemma_reap_preserves_transit(st1, rest, cap, u);
        lemma_pending_changes_first(pending, u);
        // Relate the transit through one step.
        let before = box_of(st.boxes, u).changes + pending_changes_to(st.kept, u);
        let mid = box_of(st1.boxes, u).changes + pending_changes_to(st1.kept, u);
        if !has_box(st.boxes, p.target) {
            assert(st1 == st);
            assert(p.target != u);
            assert(pending_changes_to(pending, u) == pending_changes_to(rest, u));
            assert(before + pending_changes_to(pending, u) =~= before + pending_changes_to(
                rest,
                u,
            ));
        } else if !held_back(st.kept, p) && can_accept(box_of(st.boxes, p.target), p.payload, cap) {
            if p.target == u && p.payload is Change {
                assert(pending_changes_to(st.kept, u) =~= Seq::<DataChangeV>::empty()) by {
                    lemma_no_held_back_means_empty(st.kept, p, u);
                }
                assert(box_of(st1.boxes, u) == box_push(box_of(st.boxes, u), p.payload)) by {
                    lemma_box_update_self(st.boxes, u, p.payload);
                }
                assert(mid =~= before + pending_changes_to(pending, u).take(1)) by {
                    assert(pending_changes_to(pending, u)[0] == p.payload->Change_0);
                }
                assert(mid + pending_changes_to(rest, u) =~= before + pending_changes_to(
                    pending,
                    u,
                ));
            } else {
                assert(box_of(st1.boxes, u).changes == box_of(st.boxes, u).changes) by {
                    if p.target == u {
                        lemma_box_update_self(st.boxes, u, p.payload);
                        assert(box_push(box_of(st.boxes, u), p.payload).changes == box_of(
                            st.boxes,
                            u,
                        ).changes);
                    } else {
                        lemma_box_update_other(st.boxes, u, p.target, p.payload);
                    }
                }
                assert(pending_changes_to(pending, u) == pending_changes_to(rest, u));
                assert(mid + pending_changes_to(rest, u) =~= before + pending_changes_to(
                    pending,
                    u,
                ));
            }
        } else {
            assert(st1.kept == st.kept.push(p));
            assert(st1.kept.drop_last() =~= st.kept);
            if p.target == u && p.payload is Change {
                assert(pending_changes_to(st1.kept, u) =~= pending_changes_to(st.kept, u).push(
                    p.payload->Change_0,
                ));
                assert(mid =~= before + pending_changes_to(pending, u).take(1)) by {
                    assert(pending_changes_to(pending, u)[0] == p.payload->Change_0);
                }
                assert(mid + pending_changes_to(rest, u) =~= before + pending_changes_to(
                    pending,
                    u,
                ));
            } else {
                assert(pending_changes_to(st1.kept, u) =~= pending_changes_to(st.kept, u));
                assert(pending_changes_to(pending, u) == pending_changes_to(rest, u));
                assert(mid + pending_changes_to(rest, u) =~= before + pending_changes_to(
                    pending,
                    u,
                ));
            }
        }
    }
}

/// The pending changes to a recipient, split at the first pool entry.
proof fn lemma_pending_changes_first(pending: Seq<PendingSendV>, u: u64)
    requires
        pending.len() > 0,
    ensures
        (pending[0].target == u && pending[0].payload is Change) ==> pending_changes_to(pending, u)
            == seq![pending[0].payload->Change_0] + pending_changes_to(
            pending.subrange(1, pending.len() as int),
            u,
        ),
        !(pending[0].target == u && pending[0].payload is Change) ==> pending_changes_to(
            pending,
            u,
        ) == pending_changes_to(pending.subrange(1, pending.len() as int), u),
    decreases pending.len(),
{
    let rest = pending.subrange(1, pending.len() as int);
    if pending.len() == 1 {
        assert(rest =~= Seq::<PendingSendV>::empty());
        assert(pending.drop_last() =~= Seq::<PendingSendV>::empty());
        if pending[0].target == u && pending[0].payload is Change {
            assert(pending_changes_to(pending, u) =~= seq![pending[0].payload->Change_0]
                + pending_changes_to(rest, u));
        }
    } else {
        lemma_pending_changes_first(pending.drop_last(), u);
        assert(pending.drop_last()[0] == pending[0]);
        assert(rest.drop_last() =~= pending.drop_last().subrange(
            1,
            pending.drop_last().len() as int,
        ));
        assert(rest.last() == pending.last());
        if pending[0].target == u && pending[0].payload is Change {
            if pending.last().target == u && pending.last().payload is Change {
                assert(pending_changes_to(pending, u) =~= seq![pending[0].payload->Change_0]
                    + pending_changes_to(rest, u));
            } else {
                assert(pending_changes_to(pending, u) =~= seq![pending[0].payload->Change_0]
                    + pending_changes_to(rest, u));
            }
        } else {
            if pending.last().target == u && pending.last().payload is Change {
                assert(pending_changes_to(pending, u) =~= pending_changes_to(rest, u));
            } else {
                assert(pending_changes_to(pending, u) =~= pending_changes_to(rest, u));
            }
        }
    }
}

/// A send to `u` that is deliverable proves no change to `u` is held back.
proof fn lemma_no_held_back_means_empty(kept: Seq<PendingSendV>, p: PendingSendV, u: u64)
    requires
        !held_back(kept, p),
        p.target == u,
        p.payload is Change,
    ensures
        pending_changes_to(kept, u) == Seq::<DataChangeV>::empty(),
    decreases kept.len(),
{
    if kept.len() > 0 {
        let k0 = kept.drop_last();
        assert(!held_back(k0, p)) by {
            if held_back(k0, p) {
                let t = choose|t: int|
                    0 <= t < k0.len() && (#[trigger] k0[t]).target == p.target && same_kind(
                        k0[t].payload,
                        p.payload,
                    );
                assert(kept[t] == k0[t]);
            }
        }
        lemma_no_held_back_means_empty(k0, p, u);
        if kept.last().target == u && kept.last().payload is Change {
            assert(kept[kept.len() - 1].target == p.target && same_kind(
                kept.last().payload,
                p.payload,
            ));
        }
    } else {
        assert(pending_changes_to(kept, u) =~= Seq::<DataChangeV>::empty());
    }
}

/// Updating the mailbox of `u` itself.
proof fn lemma_box_update_self(boxes: Seq<MailboxV>, u: u64, payload: SendPayloadV)
    requires
        distinct_box_ids(boxes),
        has_box(boxes, u),
    ensures
        ({
            let b2 = boxes.update(index_of_box(boxes, u), box_push(box_of(boxes, u), payload));
            has_box(b2, u) && distinct_box_ids(b2) && box_of(b2, u) == box_push(
                box_of(boxes, u),
                payload,
            )
        }),
{
    let idx = index_of_box(boxes, u);
    let b2 = boxes.update(idx, box_push(box_of(boxes, u), payload));
    assert(b2[idx].id == u);
    assert(has_box(b2, u));
    let idx2 = index_of_box(b2, u);
    if idx2 != idx {
        assert(b2[idx2].id == boxes[idx2].id);
        assert(boxes[idx2].id == boxes[idx].id);
        assert(false);
    }
}

/// Updating the mailbox of some other recipient leaves `u`'s mailbox alone.
proof fn lemma_box_update_other(boxes: Seq<MailboxV>, u: u64, other: u64, payload: SendPayloadV)
    requires
        distinct_box_ids(boxes),
        has_box(boxes, u),
        has_box(boxes, other),
        other != u,
    ensures
        ({
            let b2 = boxes.update(
                index_of_box(boxes, other),
                box_push(box_of(boxes, other), payload),
            );
            has_box(b2, u) && distinct_box_ids(b2) && box_of(b2, u) == box_of(boxes, u)
        }),
{
    let oidx = index_of_box(boxes, other);
    let uidx = index_of_box(boxes, u);
    let b2 = boxes.update(oidx, box_push(box_of(boxes, other), payload));
    assert(boxes[oidx].id == other);
    assert(boxes[uidx].id == u);
    assert(uidx != oidx);
    assert(b2[uidx].id == u);
    assert(has_box(b2, u));
    let idx2 = index_of_box(b2, u);
    if idx2 != uidx {
        assert(b2[idx2].id == u);
        if idx2 == oidx {
            assert(b2[idx2].id == other);
        } else {
            assert(boxes[idx2].id == u);
        }
        assert(false);
    }
}

/// A reap pass never adds, removes or renames a mailbox, keeps distinct ids
/// distinct and keeps bounded queues bounded.
pub proof fn lemma_reap_fold_boxes(st: ReapState, pending: Seq<PendingSendV>, cap: nat)
    requires
        distinct_box_ids(st.boxes),
        boxes_bounded(st.boxes, cap),
    ensures
        ({
            let r = reap_fold(st, pending, cap);
            &&& r.boxes.len() == st.boxes.len()
            &&& forall|t: int|
                0 <= t < st.boxes.len() ==> (#[trigger] r.boxes[t]).id == st.boxes[t].id
            &&& distinct_box_ids(r.boxes)
            &&& boxes_bounded(r.boxes, cap)
        }),
    decreases pending.len(),
{
    if pending.len() > 0 {
        let p = pending[0];
        let st1 = reap_step(st, p, cap);
        lemma_reap_step_boxes(st, p, cap);
        lemma_reap_fold_boxes(st1, pending.subrange(1, pending.len() as int), cap);
    }
}

/// One reap step never changes the shape of the mailboxes.
proof fn lemma_reap_step_boxes(st: ReapState, p: PendingSendV, cap: nat)
    requires
        distinct_box_ids(st.boxes),
        boxes_bounded(st.boxes, cap),
    ensures
        ({
            let r = reap_step(st, p, cap);
            &&& r.boxes.len() == st.boxes.len()
            &&& forall|t: int|
                0 <= t < st.boxes.len() ==> (#[trigger] r.boxes[t]).id == st.boxes[t].id
            &&& distinct_box_ids(r.boxes)
            &&& boxes_bounded(r.boxes, cap)
        }),
{
    if has_box(st.boxes, p.target) && !held_back(st.kept, p) && can_accept(
        box_of(st.boxes, p.target),
        p.payload,
        cap,
    ) {
        let idx = index_of_box(st.boxes, p.target);
        let b2 = reap_step(st, p, cap).boxes;
        assert forall|t: int| 0 <= t < st.boxes.len() implies (#[trigger] b2[t]).id
            == st.boxes[t].id by {
            if t != idx {
                assert(b2[t] == st.boxes[t]);
            }
        }
        assert forall|t: int| 0 <= t < b2.len() implies (#[trigger] b2[t]).changes.len() <= cap
            && b2[t].fresh.len() <= cap by {
            if t != idx {
                assert(b2[t] == st.boxes[t]);
            }
        }
    }
}

/// One reap step keeps `u`'s mailbox present and the ids distinct.
proof fn lemma_reap_step_box_facts(st: ReapState, p: PendingSendV, cap: nat, u: u64)
    requires
        has_box(st.boxes, u),
        distinct_box_ids(st.boxes),
    ensures
        has_box(reap_step(st, p, cap).boxes, u),
        distinct_box_ids(reap_step(st, p, cap).boxes),
        boxes_bounded(st.boxes, cap) ==> boxes_bounded(reap_step(st, p, cap).boxes, cap),
    decreases 0int,
{
    if has_box(st.boxes, p.target) && !held_back(st.kept, p) && can_accept(
        box_of(st.boxes, p.target),
        p.payload,
        cap,
    ) {
        if p.target == u {
            lemma_box_update_self(st.boxes, u, p.payload);
        } else {
            lemma_box_update_other(st.boxes, u, p.target, p.payload);
        }
        let idx = index_of_box(st.boxes, p.target);
        let b2 = reap_step(st, p, cap).boxes;
        if boxes_bounded(st.boxes, cap) {
            assert forall|t: int| 0 <= t < b2.len() implies (#[trigger] b2[t]).changes.len() <= cap
                && b2[t].fresh.len() <= cap by {
                if t != idx {
                    assert(b2[t] == st.boxes[t]);
                }
            }
        }
    }
}

} // verus!
