//! Deliveries, bounded Mailboxes and concrete Rooms of Active Component Runtimes.
use vstd::prelude::*;
use crate::declaration::{Event, EventView, MailboxOverflowStrategy, MailboxPolicy, QueueCapacity, RoomDeclaration};
use crate::error::KernelError;
use crate::identity::{ComponentInstanceId, ComponentRuntimeId, RoomAddress, RoomRuntimeId, RoomSequence};
use crate::keyed::Keyed;
use std::collections::VecDeque;
use crate::search::{first_where, lemma_first_where_at, lemma_first_where_none, lemma_first_where_some};

verus! {

/// Routing operation that produced one Mailbox Delivery.
#[derive(Debug, Clone, Copy, PartialEq, Eq, Structural)]
pub enum DeliveryOrigin {
    /// Distribution from one concrete FIFO Room acceptance step.
    Room {
        /// Stable logical Room address.
        address: RoomAddress,
        /// FIFO position local to the concrete Room lifecycle.
        sequence: RoomSequence,
    },
    /// Direct distribution to registered broadcast listeners.
    Broadcast,
}

/// Mathematical content of a Delivery.
pub struct DeliveryView {
    pub origin: DeliveryOrigin,
    pub recipient: ComponentInstanceId,
    pub event: EventView,
}

/// One immutable Event placement offered to a subscribed Component Mailbox.
#[derive(Debug, PartialEq, Eq)]
pub struct Delivery {
    /// Routing operation that produced this Delivery.
    pub origin: DeliveryOrigin,
    /// Component Runtime whose Mailbox receives the Event.
    pub recipient: ComponentInstanceId,
    /// Sole common Event concept carried by every routing operation.
    pub event: Event,
}

impl View for Delivery {
    type V = DeliveryView;

    open spec fn view(&self) -> DeliveryView {
        DeliveryView { origin: self.origin, recipient: self.recipient, event: self.event@ }
    }
}

impl Clone for Delivery {
    fn clone(&self) -> (r: Self)
        ensures
            r@ == self@,
    {
        Delivery { origin: self.origin, recipient: self.recipient, event: self.event.clone() }
    }
}

impl Delivery {
    /// Creates one delivery attempt for an active subscription.
    pub fn from_room(room: RoomAddress, sequence: RoomSequence, recipient: ComponentInstanceId, event: Event) -> (r: Self)
        ensures
            r@ == (DeliveryView { origin: DeliveryOrigin::Room { address: room, sequence }, recipient, event: event@ }),
    {
        Delivery { origin: DeliveryOrigin::Room { address: room, sequence }, recipient, event }
    }

    /// Creates one direct Delivery to a registered broadcast listener.
    pub fn from_broadcast(recipient: ComponentInstanceId, event: Event) -> (r: Self)
        ensures
            r@ == (DeliveryView { origin: DeliveryOrigin::Broadcast, recipient, event: event@ }),
    {
        Delivery { origin: DeliveryOrigin::Broadcast, recipient, event }
    }

    /// Returns the routing operation that produced this Delivery.
    pub fn origin(&self) -> (r: DeliveryOrigin)
        ensures
            r == self.origin,
    {
        self.origin
    }

    /// Returns the logical Room that distributed this Delivery, when a Room did.
    pub fn room(&self) -> (r: Option<RoomAddress>)
        ensures
            r == (match self.origin {
                DeliveryOrigin::Room { address, .. } => Some(address),
                DeliveryOrigin::Broadcast => None,
            }),
    {
        match self.origin {
            DeliveryOrigin::Room { address, .. } => Some(address),
            DeliveryOrigin::Broadcast => None,
        }
    }

    /// Returns the Room-local FIFO position, when a Room distributed this Delivery.
    pub fn sequence(&self) -> (r: Option<RoomSequence>)
        ensures
            r == (match self.origin {
                DeliveryOrigin::Room { sequence, .. } => Some(sequence),
                DeliveryOrigin::Broadcast => None,
            }),
    {
        match self.origin {
            DeliveryOrigin::Room { sequence, .. } => Some(sequence),
            DeliveryOrigin::Broadcast => None,
        }
    }

    /// Returns the destination Component Instance.
    pub fn recipient(&self) -> (r: ComponentInstanceId)
        ensures
            r == self.recipient,
    {
        self.recipient
    }

    /// Returns the single routed Event.
    pub fn event(&self) -> (r: &Event)
        ensures
            r@ == self.event@,
    {
        &self.event
    }

    /// Reports whether two Deliveries are the same placement of the same Event.
    pub fn same_as(&self, other: &Delivery) -> (r: bool)
        ensures
            r == (self@ == other@),
    {
        self.origin == other.origin && self.recipient == other.recipient && self.event.same_as(&other.event)
    }
}

/// Processing observation available from the configured Event Loop Driver.
#[derive(Debug, Clone, Copy, PartialEq, Eq, Structural)]
pub enum DeliveryProgress {
    /// The Driver cannot confirm processing at send time.
    Unobserved,
    /// The Driver confirms that the recipient processed this Delivery.
    Processed,
}

/// Mailbox outcome of one Delivery attempt.
#[derive(Debug, Clone, Copy, PartialEq, Eq, Structural)]
pub enum DeliveryState {
    /// The Mailbox accepted the Delivery.
    Delivered,
    /// The Mailbox was full and rejected the Delivery.
    RejectedFull,
    /// The Mailbox dropped its oldest pending Delivery and accepted this one.
    DeliveredAfterDroppingOldest,
}

/// Result of applying one Component-owned Mailbox placement strategy.
#[derive(Debug, Clone, Copy, PartialEq, Eq, Structural)]
pub enum MailboxPlacement {
    /// The Mailbox had capacity and accepted the Delivery.
    Accepted,
    /// `RejectNew` preserved pending work and rejected the Delivery.
    RejectedFull,
    /// `DropOldest` removed one pending Delivery and accepted the new one.
    AcceptedAfterDroppingOldest,
}

impl MailboxPlacement {
    /// The public Receipt state of a placement.
    pub open spec fn spec_delivery_state(self) -> DeliveryState {
        match self {
            MailboxPlacement::Accepted => DeliveryState::Delivered,
            MailboxPlacement::RejectedFull => DeliveryState::RejectedFull,
            MailboxPlacement::AcceptedAfterDroppingOldest => DeliveryState::DeliveredAfterDroppingOldest,
        }
    }

    /// Converts the placement result into its public Receipt state.
    pub fn delivery_state(self) -> (r: DeliveryState)
        ensures
            r == self.spec_delivery_state(),
    {
        match self {
            MailboxPlacement::Accepted => DeliveryState::Delivered,
            MailboxPlacement::RejectedFull => DeliveryState::RejectedFull,
            MailboxPlacement::AcceptedAfterDroppingOldest => DeliveryState::DeliveredAfterDroppingOldest,
        }
    }
}

/// Recipient-local outcome of one Delivery attempt.
#[derive(Debug, Clone, Copy, PartialEq, Eq, Structural)]
pub struct DeliveryReceipt {
    /// Component Instance addressed by the Delivery.
    pub recipient: ComponentInstanceId,
    /// Mailbox placement outcome.
    pub state: DeliveryState,
    /// Whether the Driver confirmed processing during the operation.
    pub processed: bool,
}

impl DeliveryReceipt {
    /// Records one Mailbox placement outcome, not yet observed as processed.
    pub fn new(recipient: ComponentInstanceId, state: DeliveryState) -> (r: Self)
        ensures
            r == (DeliveryReceipt { recipient, state, processed: false }),
    {
        DeliveryReceipt { recipient, state, processed: false }
    }

    /// Records that the Driver confirmed processing of this Delivery.
    pub fn mark_processed(&mut self)
        ensures
            *final(self) == (DeliveryReceipt { processed: true, ..*old(self) }),
    {
        self.processed = true;
    }

    /// Returns the addressed Component Instance.
    pub fn recipient(&self) -> (r: ComponentInstanceId)
        ensures
            r == self.recipient,
    {
        self.recipient
    }

    /// Returns the Mailbox placement outcome.
    pub fn state(&self) -> (r: DeliveryState)
        ensures
            r == self.state,
    {
        self.state
    }

    /// Reports whether the Driver confirmed processing.
    pub fn is_processed(&self) -> (r: bool)
        ensures
            r == self.processed,
    {
        self.processed
    }
}

/// Complete observation returned after one Room distribution step.
#[derive(Debug, Clone, PartialEq, Eq)]
pub struct SendReceipt {
    /// Logical Room that accepted the Event.
    pub room: RoomAddress,
    /// Room-local FIFO position assigned at acceptance.
    pub sequence: RoomSequence,
    /// Subscriber-local Delivery outcomes in subscription order.
    pub deliveries: Vec<DeliveryReceipt>,
}

impl SendReceipt {
    /// Records the outcome of one Room distribution step.
    pub fn new(room: RoomAddress, sequence: RoomSequence, deliveries: Vec<DeliveryReceipt>) -> (r: Self)
        ensures
            r.room == room,
            r.sequence == sequence,
            r.deliveries@ == deliveries@,
    {
        SendReceipt { room, sequence, deliveries }
    }

    /// Returns the logical Room that accepted the Event.
    pub fn room(&self) -> (r: RoomAddress)
        ensures
            r == self.room,
    {
        self.room
    }

    /// Returns the Room-local FIFO position.
    pub fn sequence(&self) -> (r: RoomSequence)
        ensures
            r == self.sequence,
    {
        self.sequence
    }

    /// Returns every subscriber Delivery outcome.
    pub fn deliveries(&self) -> (r: &[DeliveryReceipt])
        ensures
            r@ == self.deliveries@,
    {
        self.deliveries.as_slice()
    }
}

/// Complete observation returned after one broadcast distribution.
#[derive(Debug, Clone, PartialEq, Eq)]
pub struct BroadcastReceipt {
    /// Listener-local Delivery outcomes in deterministic Component order.
    pub deliveries: Vec<DeliveryReceipt>,
}

impl BroadcastReceipt {
    /// Records every listener-local outcome of one broadcast Event.
    pub fn new(deliveries: Vec<DeliveryReceipt>) -> (r: Self)
        ensures
            r.deliveries@ == deliveries@,
    {
        BroadcastReceipt { deliveries }
    }

    /// Returns every registered listener Delivery outcome.
    pub fn deliveries(&self) -> (r: &[DeliveryReceipt])
        ensures
            r@ == self.deliveries@,
    {
        self.deliveries.as_slice()
    }
}

/// The views of a sequence of Deliveries.
pub open spec fn delivery_views(s: Seq<Delivery>) -> Seq<DeliveryView> {
    s.map_values(|d: Delivery| d@)
}

/// How a Mailbox with `pending` Deliveries places one more under `policy`.
pub open spec fn placement_for(policy: MailboxPolicy, pending: Seq<DeliveryView>) -> MailboxPlacement {
    if pending.len() < policy.capacity.spec_get() {
        MailboxPlacement::Accepted
    } else if policy.overflow == MailboxOverflowStrategy::RejectNew {
        MailboxPlacement::RejectedFull
    } else {
        MailboxPlacement::AcceptedAfterDroppingOldest
    }
}

/// The pending Deliveries after offering `d` under `policy`.
pub open spec fn queue_after(policy: MailboxPolicy, pending: Seq<DeliveryView>, d: DeliveryView) -> Seq<DeliveryView> {
    match placement_for(policy, pending) {
        MailboxPlacement::Accepted => pending.push(d),
        MailboxPlacement::RejectedFull => pending,
        MailboxPlacement::AcceptedAfterDroppingOldest => pending.drop_first().push(d),
    }
}

/// The positions of `s` that hold `d`.
pub open spec fn copy_at(s: Seq<DeliveryView>, d: DeliveryView) -> spec_fn(int) -> bool {
    |i: int| s[i] == d
}

/// `s` without its oldest copy of `d`.
pub open spec fn remove_first(s: Seq<DeliveryView>, d: DeliveryView) -> Seq<DeliveryView> {
    match first_where(s.len() as int, copy_at(s, d)) {
        Some(i) => s.remove(i),
        None => s,
    }
}

/// Removing the oldest copy of a Delivery never lengthens a Mailbox.
pub proof fn lemma_remove_first_len(s: Seq<DeliveryView>, d: DeliveryView)
    ensures
        remove_first(s, d).len() <= s.len(),
{
    if exists|i: int| 0 <= i < s.len() && s[i] == d {
        let w = choose|i: int| 0 <= i < s.len() && s[i] == d;
        lemma_first_where_some(s.len() as int, copy_at(s, d), w);
    } else {
        lemma_first_where_none(s.len() as int, copy_at(s, d));
    }
}

/// Bounded aggregate of Deliveries received from subscribed Rooms.
#[derive(Debug, PartialEq, Eq)]
pub struct Mailbox {
    /// Component-declared maximum number of pending Deliveries.
    pub policy: MailboxPolicy,
    /// Pending Deliveries in their Runtime-local arrival order.
    pub deliveries: VecDeque<Delivery>,
}

impl Mailbox {
    /// Pending Deliveries, oldest first.
    pub open spec fn pending(&self) -> Seq<DeliveryView> {
        delivery_views(self.deliveries@)
    }

    /// The Mailbox holds no more pending Deliveries than its positive bound.
    pub open spec fn bounded(&self) -> bool {
        &&& 0 < self.policy.capacity.spec_get()
        &&& self.pending().len() <= self.policy.capacity.spec_get()
    }

    /// Creates an empty Mailbox for one new Component Runtime lifecycle.
    pub fn new(policy: MailboxPolicy) -> (r: Self)
        ensures
            r.policy == policy,
            r.pending() == Seq::<DeliveryView>::empty(),
            r.bounded(),
    {
        let bound: usize = policy.capacity.get();
        assert(0 < bound);
        let r = Mailbox { policy, deliveries: VecDeque::new() };
        assert(r.pending() =~= Seq::<DeliveryView>::empty());
        r
    }

    /// Attempts one Delivery without retrying or exceeding the explicit bound.
    pub fn deliver(&mut self, delivery: Delivery) -> (r: MailboxPlacement)
        ensures
            final(self).policy == old(self).policy,
            old(self).pending().len() < old(self).policy.capacity.spec_get() ==> r == MailboxPlacement::Accepted
                && final(self).pending() == old(self).pending().push(delivery@),
            old(self).pending().len() >= old(self).policy.capacity.spec_get() && old(self).policy.overflow == MailboxOverflowStrategy::RejectNew
                ==> r == MailboxPlacement::RejectedFull && final(self).pending() == old(self).pending(),
            old(self).pending().len() >= old(self).policy.capacity.spec_get() && old(self).policy.overflow == MailboxOverflowStrategy::DropOldest
                ==> r == MailboxPlacement::AcceptedAfterDroppingOldest
                && final(self).pending() == old(self).pending().drop_first().push(delivery@),
            r == placement_for(old(self).policy, old(self).pending()),
            final(self).pending() == queue_after(old(self).policy, old(self).pending(), delivery@),
            old(self).bounded() ==> final(self).bounded(),
    {
        let ghost d = delivery@;
        if self.deliveries.len() < self.policy.capacity().get() {
            self.deliveries.push_back(delivery);
            assert(self.pending() =~= old(self).pending().push(d));
            return MailboxPlacement::Accepted;
        }
        if self.policy.overflow() == MailboxOverflowStrategy::RejectNew {
            return MailboxPlacement::RejectedFull;
        }
        let _ = self.deliveries.pop_front();
        self.deliveries.push_back(delivery);
        assert(self.pending() =~= old(self).pending().drop_first().push(d));
        MailboxPlacement::AcceptedAfterDroppingOldest
    }

    /// Removes the oldest pending copy of a Delivery confirmed as processed.
    pub fn mark_processed(&mut self, processed: &Delivery)
        ensures
            final(self).policy == old(self).policy,
            !old(self).pending().contains(processed@) ==> final(self).pending() == old(self).pending(),
            old(self).pending().contains(processed@) ==> exists|i: int|
                0 <= i < old(self).pending().len() && old(self).pending()[i] == processed@
                && (forall|j: int| 0 <= j < i ==> old(self).pending()[j] != processed@)
                && final(self).pending() == old(self).pending().remove(i),
            final(self).pending() == remove_first(old(self).pending(), processed@),
            final(self).pending().len() <= old(self).pending().len(),
            old(self).bounded() ==> final(self).bounded(),
    {
        let mut i: usize = 0;
        while i < self.deliveries.len()
            invariant
                i <= self.deliveries@.len(),
                *self == *old(self),
                forall|j: int| 0 <= j < i ==> #[trigger] self.pending()[j] != processed@,
            decreases self.deliveries@.len() - i,
        {
            if self.deliveries[i].same_as(processed) {
                let ghost before = self.pending();
                assert(before[i as int] == processed@);
                assert(before.contains(processed@));
                let _ = self.deliveries.remove(i);
                assert(self.pending() =~= before.remove(i as int));
                proof {
                    lemma_first_where_at(before.len() as int, copy_at(before, processed@), i as int);
                }
                return;
            }
            i += 1;
        }
        assert(!self.pending().contains(processed@));
        proof {
            let s0 = self.pending();
            lemma_first_where_none(s0.len() as int, copy_at(s0, processed@));
        }
    }

    /// Returns the explicit pending Delivery bound.
    pub fn capacity(&self) -> (r: QueueCapacity)
        ensures
            r == self.policy.capacity,
    {
        self.policy.capacity
    }

    /// Returns the complete Component-owned placement policy.
    pub fn policy(&self) -> (r: MailboxPolicy)
        ensures
            r == self.policy,
    {
        self.policy
    }

    /// Returns the number of pending Deliveries.
    pub fn len(&self) -> (r: usize)
        ensures
            r == self.pending().len(),
    {
        self.deliveries.len()
    }

    /// Reports whether this Mailbox has no pending Delivery.
    pub fn is_empty(&self) -> (r: bool)
        ensures
            r == (self.pending().len() == 0),
    {
        self.deliveries.len() == 0
    }

    /// Returns pending Deliveries in Runtime-local arrival order.
    pub fn deliveries(&self) -> (r: &VecDeque<Delivery>)
        ensures
            r@ == self.deliveries@,
    {
        &self.deliveries
    }
}

/// The living execution attached to one Active Component Instance.
#[derive(Debug, PartialEq, Eq)]
pub struct ComponentRuntime {
    /// Identity unique to this concrete execution lifecycle.
    pub id: ComponentRuntimeId,
    /// Component Instance whose execution this object represents.
    pub instance_id: ComponentInstanceId,
    /// Bounded Delivery queue owned by this Runtime lifecycle.
    pub mailbox: Mailbox,
}

impl ComponentRuntime {
    /// Creates execution state with the prototype Mailbox policy.
    pub fn new(id: ComponentRuntimeId, instance_id: ComponentInstanceId) -> (r: Self)
        ensures
            r.id == id,
            r.instance_id == instance_id,
            MailboxPolicy::spec_default(r.mailbox.policy),
            r.mailbox.pending() == Seq::<DeliveryView>::empty(),
            r.mailbox.bounded(),
    {
        ComponentRuntime { id, instance_id, mailbox: Mailbox::new(MailboxPolicy::default()) }
    }

    /// Creates execution state with a Component-declared Mailbox policy.
    pub fn with_mailbox(id: ComponentRuntimeId, instance_id: ComponentInstanceId, policy: MailboxPolicy) -> (r: Self)
        ensures
            r.id == id,
            r.instance_id == instance_id,
            r.mailbox.policy == policy,
            r.mailbox.pending() == Seq::<DeliveryView>::empty(),
            r.mailbox.bounded(),
    {
        ComponentRuntime { id, instance_id, mailbox: Mailbox::new(policy) }
    }

    /// Returns the identity of this concrete execution lifecycle.
    pub fn id(&self) -> (r: ComponentRuntimeId)
        ensures
            r == self.id,
    {
        self.id
    }

    /// Returns the Component Instance executed by this Runtime.
    pub fn instance_id(&self) -> (r: ComponentInstanceId)
        ensures
            r == self.instance_id,
    {
        self.instance_id
    }

    /// Returns the Runtime Mailbox.
    pub fn mailbox(&self) -> (r: &Mailbox)
        ensures
            *r == self.mailbox,
    {
        &self.mailbox
    }
}

impl Keyed for ComponentRuntime {
    open spec fn spec_key(&self) -> u64 {
        self.instance_id.0
    }

    fn key(&self) -> (k: u64) {
        self.instance_id.0
    }
}

/// One Event accepted at a Room-local FIFO position for distribution.
#[derive(Debug)]
pub struct AcceptedEvent {
    /// FIFO position assigned by the accepting Room.
    pub sequence: RoomSequence,
    /// Event removed for exactly one distribution step.
    pub event: Event,
}

/// Concrete bounded Room attached to one Active Component Runtime.
#[derive(Debug, PartialEq, Eq)]
pub struct Room {
    /// Identity unique to this concrete Runtime lifecycle.
    pub id: RoomRuntimeId,
    /// Stable logical address used by senders.
    pub address: RoomAddress,
    /// Active Component Instance that owns the Room.
    pub owner: ComponentInstanceId,
    /// Explicit distribution queue bound.
    pub capacity: QueueCapacity,
    /// FIFO Events awaiting their single distribution step.
    pub queue: VecDeque<Event>,
    /// Next Room-local FIFO position.
    pub next_sequence: u64,
}

impl Keyed for Room {
    open spec fn spec_key(&self) -> u64 {
        self.address.0
    }

    fn key(&self) -> (k: u64) {
        self.address.0
    }
}

/// Mathematical content of a concrete Room.
pub struct RoomView {
    pub id: RoomRuntimeId,
    pub address: RoomAddress,
    pub owner: ComponentInstanceId,
    pub capacity: QueueCapacity,
    pub queue: Seq<EventView>,
    pub next_sequence: u64,
}

impl View for Room {
    type V = RoomView;

    open spec fn view(&self) -> RoomView {
        RoomView {
            id: self.id,
            address: self.address,
            owner: self.owner,
            capacity: self.capacity,
            queue: self.queue@.map_values(|e: Event| e@),
            next_sequence: self.next_sequence,
        }
    }
}

/// One acceptance step of a Room: its next state and the distributed Event with its FIFO position.
pub open spec fn accept_step(room: RoomView, event: EventView) -> (RoomView, Result<(RoomSequence, EventView), KernelError>) {
    if room.queue.len() == room.capacity.spec_get() {
        (room, Err(KernelError::RoomQueueFull(room.address)))
    } else if room.next_sequence == u64::MAX {
        (room, Err(KernelError::RoomSequenceExhausted(room.address)))
    } else {
        let q = room.queue.push(event);
        (RoomView { queue: q.drop_first(), next_sequence: (room.next_sequence + 1) as u64, ..room }, Ok((RoomSequence(room.next_sequence), q[0])))
    }
}

impl Room {
    /// Materializes one concrete Room for an activating Component Runtime.
    pub fn new(id: RoomRuntimeId, declaration: RoomDeclaration, owner: ComponentInstanceId) -> (r: Self)
        ensures
            r.id == id,
            r.address == declaration.address,
            r.owner == owner,
            r.capacity == declaration.capacity,
            r.queue@.len() == 0,
            r.next_sequence == 1,
    {
        Room {
            id,
            address: declaration.address(),
            owner,
            capacity: declaration.capacity(),
            queue: VecDeque::new(),
            next_sequence: 1,
        }
    }

    /// Accepts one Event and removes exactly one FIFO distribution step.
    pub fn accept(&mut self, event: Event) -> (r: Result<AcceptedEvent, KernelError>)
        ensures
            final(self).id == old(self).id,
            final(self).address == old(self).address,
            final(self).owner == old(self).owner,
            final(self).capacity == old(self).capacity,
            final(self).queue@.len() == old(self).queue@.len(),
            old(self).queue@.len() == old(self).capacity.spec_get() ==> r == Err::<AcceptedEvent, KernelError>(KernelError::RoomQueueFull(old(self).address))
                && final(self).next_sequence == old(self).next_sequence,
            old(self).queue@.len() != old(self).capacity.spec_get() && old(self).next_sequence == u64::MAX
                ==> r == Err::<AcceptedEvent, KernelError>(KernelError::RoomSequenceExhausted(old(self).address))
                && final(self).next_sequence == old(self).next_sequence,
            old(self).queue@.len() != old(self).capacity.spec_get() && old(self).next_sequence < u64::MAX ==> r is Ok
                && final(self).next_sequence == old(self).next_sequence + 1,
            r matches Ok(a) ==> a.sequence.0 == old(self).next_sequence
                && (old(self).queue@.len() == 0 ==> a.event@ == event@ && final(self).queue@.len() == 0),
            final(self)@ == accept_step(old(self)@, event@).0,
            r matches Ok(a) ==> accept_step(old(self)@, event@).1 == Ok::<(RoomSequence, EventView), KernelError>((a.sequence, a.event@)),
            r matches Err(e) ==> accept_step(old(self)@, event@).1 == Err::<(RoomSequence, EventView), KernelError>(e),
    {
        let ghost q0 = self@.queue;
        if self.queue.len() == self.capacity.get() {
            return Err(KernelError::RoomQueueFull(self.address));
        }
        let sequence = RoomSequence::new(self.next_sequence);
        match self.next_sequence.checked_add(1) {
            Some(next) => {
                self.next_sequence = next;
            },
            None => {
                return Err(KernelError::RoomSequenceExhausted(self.address));
            },
        }
        let ghost ev = event@;
        self.queue.push_back(event);
        assert(self.queue@.map_values(|e: Event| e@) =~= q0.push(ev));
        let first = self.queue.pop_front().unwrap();
        assert(self.queue@.map_values(|e: Event| e@) =~= q0.push(ev).drop_first());
        Ok(AcceptedEvent { sequence, event: first })
    }

    /// Returns the concrete Room lifecycle identity.
    pub fn id(&self) -> (r: RoomRuntimeId)
        ensures
            r == self.id,
    {
        self.id
    }

    /// Returns the stable logical address.
    pub fn address(&self) -> (r: RoomAddress)
        ensures
            r == self.address,
    {
        self.address
    }

    /// Returns the active Component Instance that owns this Room.
    pub fn owner(&self) -> (r: ComponentInstanceId)
        ensures
            r == self.owner,
    {
        self.owner
    }

    /// Returns the explicit distribution queue bound.
    pub fn capacity(&self) -> (r: QueueCapacity)
        ensures
            r == self.capacity,
    {
        self.capacity
    }

    /// Returns Events still awaiting a future distribution step.
    pub fn queued(&self) -> (r: usize)
        ensures
            r == self.queue@.len(),
    {
        self.queue.len()
    }
}

/// Living routing relation to one Active Component Runtime Mailbox.
#[derive(Debug, Clone, Copy, PartialEq, Eq, Structural)]
pub struct Subscription {
    /// Logical Room that distributes Events.
    pub room: RoomAddress,
    /// Active Component Instance whose Runtime owns the destination Mailbox.
    pub subscriber: ComponentInstanceId,
}

impl Subscription {
    /// Materializes one declared relation during Component activation.
    pub fn new(room: RoomAddress, subscriber: ComponentInstanceId) -> (r: Self)
        ensures
            r.room == room,
            r.subscriber == subscriber,
    {
        Subscription { room, subscriber }
    }

    /// Returns the subscribed logical Room address.
    pub fn room(self) -> (r: RoomAddress)
        ensures
            r == self.room,
    {
        self.room
    }

    /// Returns the Active destination Component Instance.
    pub fn subscriber(self) -> (r: ComponentInstanceId)
        ensures
            r == self.subscriber,
    {
        self.subscriber
    }
}

} // verus!
