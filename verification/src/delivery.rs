//! Mailbox placement and Driver observation of one Delivery frontier.
use vstd::prelude::*;
use crate::declaration::MailboxPolicy;
use crate::error::{DriverError, KernelError};
use crate::execution::{EventLoopDriver, front_answered, results_view};
use crate::graph::GraphState;
use crate::mailbox::{
    ComponentRuntime, Delivery, DeliveryProgress, DeliveryReceipt, DeliveryState, DeliveryView,
    MailboxPlacement, delivery_views, placement_for, queue_after, remove_first,
};

verus! {

/// The pending Deliveries of every Runtime Mailbox, by Instance key.
pub open spec fn mailboxes(runtimes: Map<u64, ComponentRuntime>) -> Map<u64, Seq<DeliveryView>> {
    runtimes.map_values(|rt: ComponentRuntime| rt.mailbox.pending())
}

/// The placement policy of every Runtime Mailbox, by Instance key.
pub open spec fn mailbox_policies(runtimes: Map<u64, ComponentRuntime>) -> Map<u64, MailboxPolicy> {
    runtimes.map_values(|rt: ComponentRuntime| rt.mailbox.policy)
}

/// The Runtimes keep their identities and policies while their Mailboxes hold `boxes`.
pub open spec fn runtimes_with(old: Map<u64, ComponentRuntime>, new: Map<u64, ComponentRuntime>, boxes: Map<u64, Seq<DeliveryView>>) -> bool {
    &&& new.dom() == old.dom()
    &&& forall|k: u64| #[trigger] old.contains_key(k) ==> {
        &&& new[k].id == old[k].id
        &&& new[k].instance_id == old[k].instance_id
        &&& new[k].mailbox.policy == old[k].mailbox.policy
        &&& new[k].mailbox.pending() == boxes[k]
    }
}

/// Mailbox contents, placement states and accepted Deliveries after offering a frontier in order.
pub struct FrontPlacement {
    /// Pending Deliveries of every Mailbox afterwards.
    pub boxes: Map<u64, Seq<DeliveryView>>,
    /// Receipt state of each offered Delivery.
    pub states: Seq<DeliveryState>,
    /// Deliveries some Mailbox accepted, in frontier order.
    pub accepted: Seq<DeliveryView>,
    /// Frontier position of each accepted Delivery.
    pub slots: Seq<int>,
}

/// Offers the Deliveries `ds` one after another to the Mailboxes `boxes`.
pub open spec fn place_front(policies: Map<u64, MailboxPolicy>, boxes: Map<u64, Seq<DeliveryView>>, ds: Seq<DeliveryView>) -> FrontPlacement
    decreases ds.len(),
{
    if ds.len() == 0 {
        FrontPlacement { boxes, states: Seq::empty(), accepted: Seq::empty(), slots: Seq::empty() }
    } else {
        let f = place_front(policies, boxes, ds.drop_last());
        let d = ds.last();
        let k = d.recipient.0;
        if f.boxes.contains_key(k) {
            let p = placement_for(policies[k], f.boxes[k]);
            FrontPlacement {
                boxes: f.boxes.insert(k, queue_after(policies[k], f.boxes[k], d)),
                states: f.states.push(p.spec_delivery_state()),
                accepted: if p == MailboxPlacement::RejectedFull { f.accepted } else { f.accepted.push(d) },
                slots: if p == MailboxPlacement::RejectedFull { f.slots } else { f.slots.push(ds.len() - 1) },
            }
        } else {
            FrontPlacement { states: f.states.push(DeliveryState::RejectedFull), ..f }
        }
    }
}

/// Removes, for each accepted Delivery the Driver processed, its oldest pending copy.
pub open spec fn complete_boxes(boxes: Map<u64, Seq<DeliveryView>>, accepted: Seq<DeliveryView>, progress: Seq<DeliveryProgress>) -> Map<u64, Seq<DeliveryView>>
    decreases accepted.len(),
{
    if accepted.len() == 0 {
        boxes
    } else {
        let n = accepted.len() - 1;
        let b = complete_boxes(boxes, accepted.drop_last(), progress.take(n));
        let d = accepted.last();
        if progress[n] == DeliveryProgress::Processed && b.contains_key(d.recipient.0) {
            b.insert(d.recipient.0, remove_first(b[d.recipient.0], d))
        } else {
            b
        }
    }
}

/// Completing a frontier keeps the set of Mailboxes.
pub proof fn lemma_complete_boxes_dom(boxes: Map<u64, Seq<DeliveryView>>, accepted: Seq<DeliveryView>, progress: Seq<DeliveryProgress>)
    ensures
        complete_boxes(boxes, accepted, progress).dom() == boxes.dom(),
    decreases accepted.len(),
{
    if accepted.len() > 0 {
        let n = accepted.len() - 1;
        lemma_complete_boxes_dom(boxes, accepted.drop_last(), progress.take(n));
        let b = complete_boxes(boxes, accepted.drop_last(), progress.take(n));
        let d = accepted.last();
        if b.contains_key(d.recipient.0) {
            assert(b.insert(d.recipient.0, remove_first(b[d.recipient.0], d)).dom() =~= b.dom());
        }
    }
}

/// Accepted entry `i` of `f` came from frontier position `f.slots[i]` and a known Mailbox.
pub open spec fn slot_consistent(boxes: Map<u64, Seq<DeliveryView>>, ds: Seq<DeliveryView>, f: FrontPlacement, i: int) -> bool {
    &&& 0 <= f.slots[i] < ds.len()
    &&& ds[f.slots[i]] == f.accepted[i]
    &&& f.states[f.slots[i]] != DeliveryState::RejectedFull
    &&& boxes.contains_key(f.accepted[i].recipient.0)
}

/// Placing a frontier keeps the set of Mailboxes and records where each accepted Delivery came from.
pub proof fn lemma_place_front(policies: Map<u64, MailboxPolicy>, boxes: Map<u64, Seq<DeliveryView>>, ds: Seq<DeliveryView>)
    ensures
        place_front(policies, boxes, ds).boxes.dom() == boxes.dom(),
        place_front(policies, boxes, ds).states.len() == ds.len(),
        place_front(policies, boxes, ds).accepted.len() == place_front(policies, boxes, ds).slots.len(),
        forall|i: int| 0 <= i < place_front(policies, boxes, ds).slots.len() ==> slot_consistent(boxes, ds, place_front(policies, boxes, ds), i),
        forall|i: int, j: int| 0 <= i < j < place_front(policies, boxes, ds).slots.len()
            ==> #[trigger] place_front(policies, boxes, ds).slots[i] < #[trigger] place_front(policies, boxes, ds).slots[j],
        forall|j: int| 0 <= j < ds.len() && place_front(policies, boxes, ds).states[j] != DeliveryState::RejectedFull
            ==> exists|i: int| 0 <= i < place_front(policies, boxes, ds).slots.len() && #[trigger] place_front(policies, boxes, ds).slots[i] == j,
    decreases ds.len(),
{
    if ds.len() > 0 {
        let t = ds.drop_last();
        lemma_place_front(policies, boxes, t);
        let f = place_front(policies, boxes, t);
        let g = place_front(policies, boxes, ds);
        assert forall|i: int| 0 <= i < g.slots.len() implies slot_consistent(boxes, ds, g, i) by {
            if i < f.slots.len() {
                assert(slot_consistent(boxes, t, f, i));
                assert(g.slots[i] == f.slots[i]);
                assert(t[f.slots[i]] == ds[f.slots[i]]);
            }
        }
        assert forall|i: int, j: int| 0 <= i < j < g.slots.len() implies #[trigger] g.slots[i] < #[trigger] g.slots[j] by {
            if j < f.slots.len() {
                assert(g.slots[i] == f.slots[i] && g.slots[j] == f.slots[j]);
            } else {
                assert(slot_consistent(boxes, t, f, i));
                assert(g.slots[i] == f.slots[i]);
            }
        }
        assert forall|j: int| 0 <= j < ds.len() && g.states[j] != DeliveryState::RejectedFull
            implies exists|i: int| 0 <= i < g.slots.len() && #[trigger] g.slots[i] == j by {
            if j < t.len() {
                assert(f.states[j] == g.states[j]);
                let i = choose|i: int| 0 <= i < f.slots.len() && #[trigger] f.slots[i] == j;
                assert(g.slots[i] == j);
            } else {
                assert(g.slots[g.slots.len() - 1] == j);
            }
        }
    }
}


/// Every table but the Runtimes is unchanged.
pub open spec fn same_except_runtimes(old: GraphState, new: GraphState) -> bool {
    &&& new.definitions == old.definitions
    &&& new.instances == old.instances
    &&& new.requirements == old.requirements
    &&& new.capabilities == old.capabilities
    &&& new.bindings == old.bindings
    &&& new.effects == old.effects
    &&& new.contexts == old.contexts
    &&& new.facet_schemas == old.facet_schemas
    &&& new.facets == old.facets
    &&& new.rooms == old.rooms
    &&& new.subscriptions == old.subscriptions
}

/// The receipts, pending entries and Mailboxes after offering the frontier `ds` to the graph `old`.
pub open spec fn front_offered(old: GraphState, new: GraphState, ds: Seq<DeliveryView>, receipts: Seq<DeliveryReceipt>, pending: Seq<PendingDelivery>) -> bool {
    let f = place_front(mailbox_policies(old.runtimes@), mailboxes(old.runtimes@), ds);
    &&& runtimes_with(old.runtimes@, new.runtimes@, f.boxes)
    &&& receipts.len() == ds.len()
    &&& forall|j: int| 0 <= j < ds.len() ==> #[trigger] receipts[j] == (DeliveryReceipt { recipient: ds[j].recipient, state: f.states[j], processed: false })
    &&& pending.len() == f.accepted.len()
    &&& forall|i: int| 0 <= i < pending.len() ==> (#[trigger] pending[i]).delivery@ == f.accepted[i] && pending[i].receipt == f.slots[i]
}

/// Mailbox-accepted Delivery awaiting one Driver-front observation.
#[derive(Debug)]
pub struct PendingDelivery {
    /// Position in the final recipient-local receipt vector.
    pub receipt: usize,
    /// Delivery retained for Driver observation and Mailbox completion.
    pub delivery: Delivery,
}

/// The value of a Driver's frontier observation.
pub open spec fn progress_view(p: Result<Vec<DeliveryProgress>, DriverError>) -> Result<Seq<DeliveryProgress>, DriverError> {
    match p {
        Ok(v) => Ok(v@),
        Err(e) => Err(e),
    }
}

/// Receipt `j` belongs to one of the first `n` pending entries, which the Driver processed and whose Runtime lives.
pub open spec fn observed_processed(pending: Seq<PendingDelivery>, progress: Seq<DeliveryProgress>, runtimes: Map<u64, ComponentRuntime>, n: int, j: int) -> bool {
    exists|i: int| 0 <= i < n && #[trigger] pending[i].receipt == j && progress[i] == DeliveryProgress::Processed
        && runtimes.contains_key(pending[i].delivery.recipient.0)
}

/// The receipts `before` with the processing observed through the first `n` pending entries.
pub open spec fn receipts_observed(before: Seq<DeliveryReceipt>, pending: Seq<PendingDelivery>, progress: Seq<DeliveryProgress>, runtimes: Map<u64, ComponentRuntime>, n: int) -> Seq<DeliveryReceipt> {
    Seq::new(before.len(), |j: int| DeliveryReceipt {
        processed: before[j].processed || observed_processed(pending, progress, runtimes, n, j),
        ..before[j]
    })
}

/// The outcome of applying one Driver observation of the pending frontier.
pub open spec fn progress_applied(
    old: GraphState,
    new: GraphState,
    pending: Seq<PendingDelivery>,
    progress: Result<Seq<DeliveryProgress>, DriverError>,
    before: Seq<DeliveryReceipt>,
    after: Seq<DeliveryReceipt>,
    r: Result<(), KernelError>,
) -> bool {
    match progress {
        Err(e) => r == Err::<(), KernelError>(KernelError::DriverDelivery { recipient: pending[0].delivery.recipient, error: e })
            && new.runtimes@ == old.runtimes@ && after == before,
        Ok(p) => if p.len() != pending.len() {
            r == Err::<(), KernelError>(KernelError::InvalidDeliveryFrontSize { expected: pending.len() as usize, actual: p.len() as usize })
                && new.runtimes@ == old.runtimes@ && after == before
        } else {
            &&& r == Ok::<(), KernelError>(())
            &&& runtimes_with(old.runtimes@, new.runtimes@,
                complete_boxes(mailboxes(old.runtimes@), pending.map_values(|e: PendingDelivery| e.delivery@), p))
            &&& after == receipts_observed(before, pending, p, old.runtimes@, pending.len() as int)
        },
    }
}

/// The value of a frontier's receipts.
pub open spec fn receipts_view(r: Result<Vec<DeliveryReceipt>, KernelError>) -> Result<Seq<DeliveryReceipt>, KernelError> {
    match r {
        Ok(v) => Ok(v@),
        Err(e) => Err(e),
    }
}

/// Every Runtime keeps its identity and its Instance, and no Runtime appears or disappears.
pub open spec fn runtime_ids_kept(old: Map<u64, ComponentRuntime>, new: Map<u64, ComponentRuntime>) -> bool {
    &&& new.dom() == old.dom()
    &&& forall|k: u64| #[trigger] old.contains_key(k) ==> new[k].id == old[k].id && new[k].instance_id == old[k].instance_id
}

/// The outcome of delivering the frontier `ds` in graph `old` when the Driver answers `progress`.
pub open spec fn front_delivered(
    old: GraphState,
    new: GraphState,
    ds: Seq<DeliveryView>,
    progress: Result<Seq<DeliveryProgress>, DriverError>,
    r: Result<Seq<DeliveryReceipt>, KernelError>,
) -> bool {
    let f = place_front(mailbox_policies(old.runtimes@), mailboxes(old.runtimes@), ds);
    let placed = Seq::new(ds.len(), |j: int| DeliveryReceipt { recipient: ds[j].recipient, state: f.states[j], processed: false });
    if f.accepted.len() == 0 {
        r == Ok::<Seq<DeliveryReceipt>, KernelError>(placed) && runtimes_with(old.runtimes@, new.runtimes@, f.boxes)
    } else {
        match progress {
            Err(e) => r == Err::<Seq<DeliveryReceipt>, KernelError>(KernelError::DriverDelivery { recipient: f.accepted[0].recipient, error: e })
                && runtimes_with(old.runtimes@, new.runtimes@, f.boxes),
            Ok(p) => if p.len() != f.accepted.len() {
                r == Err::<Seq<DeliveryReceipt>, KernelError>(KernelError::InvalidDeliveryFrontSize { expected: f.accepted.len() as usize, actual: p.len() as usize })
                    && runtimes_with(old.runtimes@, new.runtimes@, f.boxes)
            } else {
                &&& runtimes_with(old.runtimes@, new.runtimes@, complete_boxes(f.boxes, f.accepted, p))
                &&& r == Ok::<Seq<DeliveryReceipt>, KernelError>(Seq::new(ds.len(), |j: int| DeliveryReceipt {
                    processed: exists|i: int| 0 <= i < f.slots.len() && #[trigger] f.slots[i] == j && p[i] == DeliveryProgress::Processed,
                    ..placed[j]
                }))
            },
        }
    }
}

/// The frontier handed to the Driver: the pending Deliveries, in order.
fn pending_deliveries(pending: &Vec<PendingDelivery>) -> (r: Vec<Delivery>)
    ensures
        r@.len() == pending@.len(),
        forall|j: int| 0 <= j < pending@.len() ==> #[trigger] r@[j]@ == pending@[j].delivery@,
        delivery_views(r@) == pending@.map_values(|e: PendingDelivery| e.delivery@),
{
    let mut deliveries: Vec<Delivery> = Vec::new();
    let mut i: usize = 0;
    while i < pending.len()
        invariant
            i <= pending@.len(),
            deliveries@.len() == i,
            forall|j: int| 0 <= j < i ==> #[trigger] deliveries@[j]@ == pending@[j].delivery@,
        decreases pending@.len() - i,
    {
        deliveries.push(pending[i].delivery.clone());
        i += 1;
    }
    assert(delivery_views(deliveries@) =~= pending@.map_values(|e: PendingDelivery| e.delivery@));
    deliveries
}

/// `front_delivered`, with the Driver going from `d0` to `d1`: it is untouched
/// when no Mailbox accepted a Delivery, and otherwise handed exactly the
/// accepted Deliveries, in order, giving the answer `progress`.
pub open spec fn front_delivered_by<D: EventLoopDriver>(
    old: GraphState,
    new: GraphState,
    d0: D,
    d1: D,
    ds: Seq<DeliveryView>,
    progress: Result<Seq<DeliveryProgress>, DriverError>,
    r: Result<Seq<DeliveryReceipt>, KernelError>,
) -> bool {
    let f = place_front(mailbox_policies(old.runtimes@), mailboxes(old.runtimes@), ds);
    &&& front_delivered(old, new, ds, progress, r)
    &&& f.accepted.len() == 0 ==> d1 == d0
    &&& f.accepted.len() > 0 ==> front_answered(d0, d1, f.accepted, progress)
}

impl GraphState {
    /// Offers one Delivery to its recipient's Mailbox; without a living Runtime it is rejected.
    pub fn place_delivery(&mut self, delivery: Delivery) -> (r: MailboxPlacement)
        requires
            old(self).wf(),
        ensures
            final(self).wf(),
            same_except_runtimes(*old(self), *final(self)),
            old(self).runtimes@.contains_key(delivery.recipient.0) ==> {
                let rt = old(self).runtimes@[delivery.recipient.0];
                &&& r == placement_for(rt.mailbox.policy, rt.mailbox.pending())
                &&& runtimes_with(old(self).runtimes@, final(self).runtimes@,
                    mailboxes(old(self).runtimes@).insert(delivery.recipient.0, queue_after(rt.mailbox.policy, rt.mailbox.pending(), delivery@)))
            },
            !old(self).runtimes@.contains_key(delivery.recipient.0) ==> r == MailboxPlacement::RejectedFull
                && final(self).runtimes@ == old(self).runtimes@,
    {
        let k = delivery.recipient.0;
        proof {
            self.runtimes.lemma_view();
        }
        match self.runtimes.remove(k) {
            Some(runtime) => {
                let mut runtime = runtime;
                let p = runtime.mailbox.deliver(delivery);
                self.runtimes.insert(runtime);
                p
            },
            None => {
                assert(self.runtimes@ =~= old(self).runtimes@);
                MailboxPlacement::RejectedFull
            },
        }
    }

    /// Offers every Delivery of a frontier in order and keeps those a Mailbox accepted.
    pub fn offer_front(&mut self, deliveries: &Vec<Delivery>) -> (r: (Vec<DeliveryReceipt>, Vec<PendingDelivery>))
        requires
            old(self).wf(),
        ensures
            final(self).wf(),
            same_except_runtimes(*old(self), *final(self)),
            front_offered(*old(self), *final(self), delivery_views(deliveries@), r.0@, r.1@),
    {
        let ghost g0 = *self;
        let ghost ds = delivery_views(deliveries@);
        let ghost policies = mailbox_policies(g0.runtimes@);
        let mut receipts: Vec<DeliveryReceipt> = Vec::new();
        let mut pending: Vec<PendingDelivery> = Vec::new();
        proof {
            assert(ds.take(0) =~= Seq::<DeliveryView>::empty());
            assert(g0.runtimes@.dom() =~= mailboxes(g0.runtimes@).dom());
        }
        let mut i: usize = 0;
        while i < deliveries.len()
            invariant
                self.wf(),
                same_except_runtimes(g0, *self),
                ds == delivery_views(deliveries@),
                policies == mailbox_policies(g0.runtimes@),
                i <= deliveries@.len(),
                receipts@.len() == i,
                front_offered(g0, *self, ds.take(i as int), receipts@, pending@),
            decreases deliveries@.len() - i,
        {
            let delivery = deliveries[i].clone();
            let recipient = delivery.recipient;
            let ghost cur = *self;
            let ghost t0 = ds.take(i as int);
            let ghost t1 = ds.take(i as int + 1);
            proof {
                lemma_place_front(policies, mailboxes(g0.runtimes@), t0);
                assert(t1.drop_last() =~= t0);
                assert(t1.last() == delivery@);
            }
            let placement = self.place_delivery(delivery);
            let state = placement.delivery_state();
            if placement != MailboxPlacement::RejectedFull {
                pending.push(PendingDelivery { receipt: receipts.len(), delivery: deliveries[i].clone() });
            }
            receipts.push(DeliveryReceipt::new(recipient, state));
            proof {
                let f0 = place_front(policies, mailboxes(g0.runtimes@), t0);
                let f1 = place_front(policies, mailboxes(g0.runtimes@), t1);
                let k = recipient.0;
                if cur.runtimes@.contains_key(k) {
                    assert(f0.boxes.contains_key(k));
                    assert(cur.runtimes@[k].mailbox.pending() == f0.boxes[k]);
                    assert(cur.runtimes@[k].mailbox.policy == policies[k]);
                    assert forall|q: u64| #[trigger] g0.runtimes@.contains_key(q) implies {
                        &&& self.runtimes@[q].id == g0.runtimes@[q].id
                        &&& self.runtimes@[q].instance_id == g0.runtimes@[q].instance_id
                        &&& self.runtimes@[q].mailbox.policy == g0.runtimes@[q].mailbox.policy
                        &&& self.runtimes@[q].mailbox.pending() == f1.boxes[q]
                    } by {
                        assert(cur.runtimes@.contains_key(q));
                    }
                } else {
                    assert(!f0.boxes.contains_key(k));
                }
                assert(runtimes_with(g0.runtimes@, self.runtimes@, f1.boxes));
                assert(pending@.len() == f1.accepted.len());
                assert forall|q: int| 0 <= q < pending@.len() implies #[trigger] pending@[q].delivery@ == f1.accepted[q] && pending@[q].receipt == f1.slots[q] by {
                }
                assert forall|j: int| 0 <= j < t1.len() implies #[trigger] receipts@[j] == (DeliveryReceipt { recipient: t1[j].recipient, state: f1.states[j], processed: false }) by {
                    if j < t0.len() {
                        assert(t0[j] == t1[j]);
                    }
                }
            }
            i += 1;
        }
        proof {
            assert(ds.take(deliveries@.len() as int) =~= ds);
        }
        (receipts, pending)
    }

    /// Applies one Driver observation of a pending frontier without retrying any rejected Delivery.
    pub fn apply_front_progress(
        &mut self,
        pending: &Vec<PendingDelivery>,
        progress: Result<Vec<DeliveryProgress>, DriverError>,
        receipts: &mut Vec<DeliveryReceipt>,
    ) -> (r: Result<(), KernelError>)
        requires
            old(self).wf(),
            pending@.len() > 0,
            forall|i: int| 0 <= i < pending@.len() ==> #[trigger] pending@[i].receipt < old(receipts)@.len(),
        ensures
            final(self).wf(),
            same_except_runtimes(*old(self), *final(self)),
            progress_applied(*old(self), *final(self), pending@, progress_view(progress), old(receipts)@, final(receipts)@, r),
            final(self).runtimes@.dom() == old(self).runtimes@.dom(),
    {
        let p = match progress {
            Err(error) => {
                return Err(KernelError::DriverDelivery { recipient: pending[0].delivery.recipient, error });
            },
            Ok(p) => p,
        };
        if p.len() != pending.len() {
            return Err(KernelError::InvalidDeliveryFrontSize { expected: pending.len(), actual: p.len() });
        }
        let ghost g0 = *self;
        let ghost before = receipts@;
        let ghost accepted = pending@.map_values(|e: PendingDelivery| e.delivery@);
        proof {
            assert(accepted.take(0) =~= Seq::<DeliveryView>::empty());
            assert(receipts@ =~= receipts_observed(before, pending@, p@, g0.runtimes@, 0));
            self.runtimes.lemma_view();
        }
        let mut i: usize = 0;
        while i < pending.len()
            invariant
                self.wf(),
                same_except_runtimes(g0, *self),
                accepted == pending@.map_values(|e: PendingDelivery| e.delivery@),
                p@.len() == pending@.len(),
                i <= pending@.len(),
                forall|q: int| 0 <= q < pending@.len() ==> #[trigger] pending@[q].receipt < before.len(),
                runtimes_with(g0.runtimes@, self.runtimes@, complete_boxes(mailboxes(g0.runtimes@), accepted.take(i as int), p@.take(i as int))),
                receipts@ == receipts_observed(before, pending@, p@, g0.runtimes@, i as int),
            decreases pending@.len() - i,
        {
            let entry = &pending[i];
            let k = entry.delivery.recipient.0;
            let ghost cur = *self;
            let ghost t0 = accepted.take(i as int);
            let ghost t1 = accepted.take(i as int + 1);
            proof {
                assert(t1.drop_last() =~= t0);
                assert(p@.take(i as int + 1).take(i as int) =~= p@.take(i as int));
                assert(t1.last() == entry.delivery@);
            }
            if p[i] == DeliveryProgress::Processed {
                proof {
                    self.runtimes.lemma_view();
                }
                match self.runtimes.remove(k) {
                    Some(runtime) => {
                        let mut runtime = runtime;
                        runtime.mailbox.mark_processed(&entry.delivery);
                        self.runtimes.insert(runtime);
                        let mut receipt = receipts[entry.receipt];
                        receipt.mark_processed();
                        receipts.set(entry.receipt, receipt);
                    },
                    None => {
                        assert(self.runtimes@ =~= cur.runtimes@);
                    },
                }
            }
            proof {
                let b0 = complete_boxes(mailboxes(g0.runtimes@), t0, p@.take(i as int));
                let b1 = complete_boxes(mailboxes(g0.runtimes@), t1, p@.take(i as int + 1));
                lemma_complete_boxes_dom(mailboxes(g0.runtimes@), t0, p@.take(i as int));
                assert(mailboxes(g0.runtimes@).dom() =~= g0.runtimes@.dom());
                assert(p@.take(i as int + 1)[i as int] == p@[i as int]);
                assert(runtimes_with(g0.runtimes@, self.runtimes@, b1)) by {
                    assert forall|q: u64| #[trigger] g0.runtimes@.contains_key(q) implies {
                        &&& self.runtimes@[q].id == g0.runtimes@[q].id
                        &&& self.runtimes@[q].instance_id == g0.runtimes@[q].instance_id
                        &&& self.runtimes@[q].mailbox.policy == g0.runtimes@[q].mailbox.policy
                        &&& self.runtimes@[q].mailbox.pending() == b1[q]
                    } by {
                        assert(cur.runtimes@.contains_key(q));
                    }
                    assert(self.runtimes@.dom() =~= g0.runtimes@.dom());
                }
                assert forall|j: int| 0 <= j < before.len() implies #[trigger] observed_processed(pending@, p@, g0.runtimes@, i as int + 1, j)
                    <==> observed_processed(pending@, p@, g0.runtimes@, i as int, j)
                        || (j == entry.receipt && p@[i as int] == DeliveryProgress::Processed && g0.runtimes@.contains_key(k)) by {
                    if observed_processed(pending@, p@, g0.runtimes@, i as int + 1, j) {
                        let q = choose|q: int| 0 <= q < i + 1 && #[trigger] pending@[q].receipt == j && p@[q] == DeliveryProgress::Processed
                            && g0.runtimes@.contains_key(pending@[q].delivery.recipient.0);
                        if q < i {
                            assert(observed_processed(pending@, p@, g0.runtimes@, i as int, j));
                        }
                    }
                    if observed_processed(pending@, p@, g0.runtimes@, i as int, j) {
                        let q = choose|q: int| 0 <= q < i && #[trigger] pending@[q].receipt == j && p@[q] == DeliveryProgress::Processed
                            && g0.runtimes@.contains_key(pending@[q].delivery.recipient.0);
                        assert(observed_processed(pending@, p@, g0.runtimes@, i as int + 1, j));
                    }
                    if j == entry.receipt && p@[i as int] == DeliveryProgress::Processed && g0.runtimes@.contains_key(k) {
                        assert(pending@[i as int].receipt == j);
                        assert(observed_processed(pending@, p@, g0.runtimes@, i as int + 1, j));
                    }
                }
                assert(receipts@ =~= receipts_observed(before, pending@, p@, g0.runtimes@, i as int + 1));
            }
            i += 1;
        }
        proof {
            assert(accepted.take(pending@.len() as int) =~= accepted);
            assert(p@.take(pending@.len() as int) =~= p@);
        }
        Ok(())
    }

    /// Observes one pending frontier through the Driver and applies its answer.
    pub fn complete_front<D: EventLoopDriver>(&mut self, driver: &mut D, pending: &Vec<PendingDelivery>, receipts: &mut Vec<DeliveryReceipt>) -> (r: Result<(), KernelError>)
        requires
            old(self).wf(),
            forall|i: int| 0 <= i < pending@.len() ==> #[trigger] pending@[i].receipt < old(receipts)@.len(),
        ensures
            final(self).wf(),
            same_except_runtimes(*old(self), *final(self)),
            pending@.len() == 0 ==> r is Ok && final(self).runtimes@ == old(self).runtimes@ && final(receipts)@ == old(receipts)@
                && *final(driver) == *old(driver),
            pending@.len() > 0 ==> exists|progress: Result<Seq<DeliveryProgress>, DriverError>|
                progress_applied(*old(self), *final(self), pending@, progress, old(receipts)@, final(receipts)@, r),
            pending@.len() > 0 ==> exists|progress: Result<Seq<DeliveryProgress>, DriverError>|
                #[trigger] progress_applied(*old(self), *final(self), pending@, progress, old(receipts)@, final(receipts)@, r)
                && front_answered(*old(driver), *final(driver), pending@.map_values(|e: PendingDelivery| e.delivery@), progress),
            final(self).runtimes@.dom() == old(self).runtimes@.dom(),
    {
        if pending.len() == 0 {
            return Ok(());
        }
        let deliveries = pending_deliveries(pending);
        let progress = driver.process_delivery_front(&deliveries);
        let ghost observed = progress_view(progress);
        assert(observed == results_view(progress));
        assert(front_answered(*old(driver), *driver, pending@.map_values(|e: PendingDelivery| e.delivery@), observed));
        let r = self.apply_front_progress(pending, progress, receipts);
        assert(progress_applied(*old(self), *self, pending@, observed, old(receipts)@, receipts@, r));
        r
    }

    /// Places a Delivery frontier in Mailboxes and observes processing once.
    pub fn deliver_front<D: EventLoopDriver>(&mut self, driver: &mut D, deliveries: &Vec<Delivery>) -> (r: Result<Vec<DeliveryReceipt>, KernelError>)
        requires
            old(self).wf(),
        ensures
            final(self).wf(),
            same_except_runtimes(*old(self), *final(self)),
            exists|progress: Result<Seq<DeliveryProgress>, DriverError>|
                front_delivered(*old(self), *final(self), delivery_views(deliveries@), progress, receipts_view(r)),
            r matches Ok(v) ==> v@.len() == deliveries@.len(),
            final(self).runtimes@.dom() == old(self).runtimes@.dom(),
            place_front(mailbox_policies(old(self).runtimes@), mailboxes(old(self).runtimes@), delivery_views(deliveries@)).accepted.len() == 0
                ==> *final(driver) == *old(driver),
            exists|progress: Result<Seq<DeliveryProgress>, DriverError>|
                #[trigger] front_delivered_by(*old(self), *final(self), *old(driver), *final(driver), delivery_views(deliveries@), progress, receipts_view(r)),
            mailboxes_bounded(old(self).runtimes@) ==> mailboxes_bounded(final(self).runtimes@),
    {
        let ghost g0 = *self;
        let ghost d0 = *driver;
        let ghost ds = delivery_views(deliveries@);
        let (mut receipts, pending) = self.offer_front(deliveries);
        let ghost g1 = *self;
        let ghost placed = receipts@;
        let ghost f = place_front(mailbox_policies(g0.runtimes@), mailboxes(g0.runtimes@), ds);
        proof {
            lemma_place_front(mailbox_policies(g0.runtimes@), mailboxes(g0.runtimes@), ds);
            assert(mailboxes(g0.runtimes@).dom() =~= g0.runtimes@.dom());
            assert(mailboxes(g1.runtimes@) =~= f.boxes);
            assert(pending@.map_values(|e: PendingDelivery| e.delivery@) =~= f.accepted);
            assert forall|i: int| 0 <= i < pending@.len() implies #[trigger] pending@[i].receipt < receipts@.len() by {
                assert(slot_consistent(mailboxes(g0.runtimes@), ds, f, i));
            }
            assert(placed =~= Seq::new(ds.len(), |j: int| DeliveryReceipt { recipient: ds[j].recipient, state: f.states[j], processed: false }));
        }
        let outcome = self.complete_front(driver, &pending, &mut receipts);
        proof {
            if pending@.len() > 0 {
                let progress = choose|progress: Result<Seq<DeliveryProgress>, DriverError>|
                    #[trigger] progress_applied(g1, *self, pending@, progress, placed, receipts@, outcome)
                    && front_answered(d0, *driver, pending@.map_values(|e: PendingDelivery| e.delivery@), progress);
                match progress {
                    Ok(p) => {
                        if p.len() == pending@.len() {
                            lemma_complete_boxes_dom(f.boxes, f.accepted, p);
                            assert forall|j: int| 0 <= j < placed.len() implies observed_processed(pending@, p, g1.runtimes@, pending@.len() as int, j)
                                == (exists|i: int| 0 <= i < f.slots.len() && #[trigger] f.slots[i] == j && p[i] == DeliveryProgress::Processed) by {
                                if observed_processed(pending@, p, g1.runtimes@, pending@.len() as int, j) {
                                    let i = choose|i: int| 0 <= i < pending@.len() && #[trigger] pending@[i].receipt == j && p[i] == DeliveryProgress::Processed
                                        && g1.runtimes@.contains_key(pending@[i].delivery.recipient.0);
                                    assert(f.slots[i] == j);
                                }
                                if exists|i: int| 0 <= i < f.slots.len() && #[trigger] f.slots[i] == j && p[i] == DeliveryProgress::Processed {
                                    let i = choose|i: int| 0 <= i < f.slots.len() && #[trigger] f.slots[i] == j && p[i] == DeliveryProgress::Processed;
                                    assert(slot_consistent(mailboxes(g0.runtimes@), ds, f, i));
                                    assert(pending@[i].receipt == j);
                                }
                            }
                            assert(runtimes_with(g0.runtimes@, self.runtimes@, complete_boxes(f.boxes, f.accepted, p)));
                            assert(receipts@ =~= Seq::new(ds.len(), |j: int| DeliveryReceipt {
                                processed: exists|i: int| 0 <= i < f.slots.len() && #[trigger] f.slots[i] == j && p[i] == DeliveryProgress::Processed,
                                ..placed[j]
                            }));
                            assert(front_delivered(g0, *self, ds, progress, receipts_view(Ok::<Vec<DeliveryReceipt>, KernelError>(receipts))));
                        }
                    },
                    Err(e) => {},
                }
                assert(front_delivered(g0, *self, ds, progress, receipts_view(match outcome {
                    Ok(()) => Ok::<Vec<DeliveryReceipt>, KernelError>(receipts),
                    Err(e) => Err(e),
                })));
                assert(front_delivered_by(g0, *self, d0, *driver, ds, progress, receipts_view(match outcome {
                    Ok(()) => Ok::<Vec<DeliveryReceipt>, KernelError>(receipts),
                    Err(e) => Err(e),
                })));
            } else {
                assert(front_delivered(g0, *self, ds, Ok::<Seq<DeliveryProgress>, DriverError>(Seq::empty()), receipts_view(Ok::<Vec<DeliveryReceipt>, KernelError>(receipts))));
                assert(front_delivered_by(g0, *self, d0, *driver, ds, Ok::<Seq<DeliveryProgress>, DriverError>(Seq::empty()),
                    receipts_view(Ok::<Vec<DeliveryReceipt>, KernelError>(receipts))));
            }
        }
        let r = match outcome {
            Ok(()) => Ok(receipts),
            Err(e) => Err(e),
        };
        proof {
            let progress = choose|progress: Result<Seq<DeliveryProgress>, DriverError>|
                #[trigger] front_delivered_by(g0, *self, d0, *driver, ds, progress, receipts_view(r));
            lemma_front_delivered_keeps_ids(g0, *self, ds, progress, receipts_view(r));
        }
        r
    }
}


/// Every Runtime Mailbox holds no more pending Deliveries than its positive bound.
pub open spec fn mailboxes_bounded(runtimes: Map<u64, ComponentRuntime>) -> bool {
    forall|k: u64| #[trigger] runtimes.contains_key(k) ==> runtimes[k].mailbox.bounded()
}

/// Every Mailbox content in `boxes` stays within the positive bound of its policy.
pub open spec fn boxes_bounded(policies: Map<u64, MailboxPolicy>, boxes: Map<u64, Seq<DeliveryView>>) -> bool {
    forall|k: u64| #[trigger] boxes.contains_key(k) ==> policies.contains_key(k)
        && 0 < policies[k].capacity.spec_get() && boxes[k].len() <= policies[k].capacity.spec_get()
}

/// Offering a frontier keeps every Mailbox within its bound.
pub proof fn lemma_place_front_bounded(policies: Map<u64, MailboxPolicy>, boxes: Map<u64, Seq<DeliveryView>>, ds: Seq<DeliveryView>)
    requires
        boxes_bounded(policies, boxes),
    ensures
        boxes_bounded(policies, place_front(policies, boxes, ds).boxes),
    decreases ds.len(),
{
    if ds.len() > 0 {
        lemma_place_front_bounded(policies, boxes, ds.drop_last());
        lemma_place_front(policies, boxes, ds.drop_last());
        let f = place_front(policies, boxes, ds.drop_last());
        let d = ds.last();
        let k = d.recipient.0;
        if f.boxes.contains_key(k) {
            let b = f.boxes.insert(k, queue_after(policies[k], f.boxes[k], d));
            assert forall|q: u64| #[trigger] b.contains_key(q) implies policies.contains_key(q)
                && 0 < policies[q].capacity.spec_get() && b[q].len() <= policies[q].capacity.spec_get() by {
                assert(f.boxes.contains_key(q));
            }
        }
    }
}

/// Completing a frontier only removes pending Deliveries, so every Mailbox stays within its bound.
pub proof fn lemma_complete_boxes_bounded(policies: Map<u64, MailboxPolicy>, boxes: Map<u64, Seq<DeliveryView>>, accepted: Seq<DeliveryView>, progress: Seq<DeliveryProgress>)
    requires
        boxes_bounded(policies, boxes),
    ensures
        boxes_bounded(policies, complete_boxes(boxes, accepted, progress)),
    decreases accepted.len(),
{
    if accepted.len() > 0 {
        let n = accepted.len() - 1;
        lemma_complete_boxes_bounded(policies, boxes, accepted.drop_last(), progress.take(n));
        let b = complete_boxes(boxes, accepted.drop_last(), progress.take(n));
        let d = accepted.last();
        if progress[n] == DeliveryProgress::Processed && b.contains_key(d.recipient.0) {
            crate::mailbox::lemma_remove_first_len(b[d.recipient.0], d);
            let c = b.insert(d.recipient.0, remove_first(b[d.recipient.0], d));
            assert forall|q: u64| #[trigger] c.contains_key(q) implies policies.contains_key(q)
                && 0 < policies[q].capacity.spec_get() && c[q].len() <= policies[q].capacity.spec_get() by {
                assert(b.contains_key(q));
            }
        }
    }
}

/// Runtimes whose Mailboxes hold bounded `boxes` under their own policies are bounded.
pub proof fn lemma_runtimes_with_bounded(old: Map<u64, ComponentRuntime>, new: Map<u64, ComponentRuntime>, boxes: Map<u64, Seq<DeliveryView>>)
    requires
        runtimes_with(old, new, boxes),
        boxes_bounded(mailbox_policies(old), boxes),
        boxes.dom() == old.dom(),
    ensures
        mailboxes_bounded(new),
{
    assert forall|k: u64| #[trigger] new.contains_key(k) implies new[k].mailbox.bounded() by {
        assert(old.contains_key(k));
        assert(boxes.contains_key(k));
    }
}

/// Bounded Mailboxes give bounded contents under their own policies.
pub proof fn lemma_mailboxes_bounded_boxes(runtimes: Map<u64, ComponentRuntime>)
    requires
        mailboxes_bounded(runtimes),
    ensures
        boxes_bounded(mailbox_policies(runtimes), mailboxes(runtimes)),
        mailboxes(runtimes).dom() == runtimes.dom(),
{
    assert(mailboxes(runtimes).dom() =~= runtimes.dom());
    assert forall|k: u64| #[trigger] mailboxes(runtimes).contains_key(k) implies mailbox_policies(runtimes).contains_key(k)
        && 0 < mailbox_policies(runtimes)[k].capacity.spec_get() && mailboxes(runtimes)[k].len() <= mailbox_policies(runtimes)[k].capacity.spec_get() by {
        assert(runtimes.contains_key(k));
        assert(runtimes[k].mailbox.bounded());
    }
}

/// Delivering a frontier changes Mailboxes only: every Runtime keeps its
/// identity, and Mailboxes within their bounds stay within them.
pub proof fn lemma_front_delivered_keeps_ids(
    old: GraphState,
    new: GraphState,
    ds: Seq<DeliveryView>,
    progress: Result<Seq<DeliveryProgress>, DriverError>,
    r: Result<Seq<DeliveryReceipt>, KernelError>,
)
    requires
        front_delivered(old, new, ds, progress, r),
    ensures
        runtime_ids_kept(old.runtimes@, new.runtimes@),
        mailboxes_bounded(old.runtimes@) ==> mailboxes_bounded(new.runtimes@),
{
    if mailboxes_bounded(old.runtimes@) {
        let pol = mailbox_policies(old.runtimes@);
        let boxes = mailboxes(old.runtimes@);
        lemma_mailboxes_bounded_boxes(old.runtimes@);
        lemma_place_front(pol, boxes, ds);
        lemma_place_front_bounded(pol, boxes, ds);
        let f = place_front(pol, boxes, ds);
        if f.accepted.len() == 0 {
            lemma_runtimes_with_bounded(old.runtimes@, new.runtimes@, f.boxes);
        } else {
        match progress {
            Err(e) => {
                lemma_runtimes_with_bounded(old.runtimes@, new.runtimes@, f.boxes);
            },
            Ok(p) => {
                if p.len() != f.accepted.len() {
                    lemma_runtimes_with_bounded(old.runtimes@, new.runtimes@, f.boxes);
                } else {
                    lemma_complete_boxes_dom(f.boxes, f.accepted, p);
                    lemma_complete_boxes_bounded(pol, f.boxes, f.accepted, p);
                    lemma_runtimes_with_bounded(old.runtimes@, new.runtimes@, complete_boxes(f.boxes, f.accepted, p));
                }
            },
        }
        }
    }
}

} // verus!
