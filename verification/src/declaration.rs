//! Routing declarations, the Event concept and complete Component Definitions.
use vstd::prelude::*;
use crate::identity::{ComponentDefinitionId, EventId, EventTypeId, RoomAddress};
use crate::keyed::Keyed;
use crate::system::{Capability, Requirement};

verus! {

/// Prototype bound used when a Definition does not override its Mailbox.
pub const DEFAULT_QUEUE_CAPACITY: usize = 16;

/// Explicit positive capacity of one bounded routing queue.
#[derive(Debug, Clone, Copy, PartialEq, Eq, Structural)]
pub struct QueueCapacity {
    value: usize,
}

impl QueueCapacity {
    #[verifier::type_invariant]
    spec fn positive(&self) -> bool {
        self.value > 0
    }

    /// The queue bound.
    pub closed spec fn spec_get(&self) -> usize {
        self.value
    }

    /// Two capacities are equal exactly when their bounds are.
    pub proof fn lemma_spec_get_determines(a: Self, b: Self)
        ensures
            (a.spec_get() == b.spec_get()) <==> (a == b),
    {
    }

    /// Validates and creates a positive queue capacity.
    pub fn new(value: usize) -> (r: Option<Self>)
        ensures
            r is Some <==> value > 0,
            r matches Some(c) ==> c.spec_get() == value,
    {
        if value == 0 {
            None
        } else {
            Some(QueueCapacity { value })
        }
    }

    /// Returns the positive queue bound.
    pub fn get(self) -> (r: usize)
        ensures
            r == self.spec_get(),
            r > 0,
    {
        proof {
            use_type_invariant(&self);
        }
        self.value
    }
}

impl Default for QueueCapacity {
    fn default() -> (r: Self)
        ensures
            r.spec_get() == DEFAULT_QUEUE_CAPACITY,
    {
        QueueCapacity { value: DEFAULT_QUEUE_CAPACITY }
    }
}

/// Component strategy invoked when its bounded Mailbox is full.
#[derive(Debug, Clone, Copy, PartialEq, Eq, Structural)]
pub enum MailboxOverflowStrategy {
    /// Rejects the new Delivery and preserves every pending Delivery.
    RejectNew,
    /// Drops the oldest pending Delivery and accepts the new Delivery once.
    DropOldest,
}

impl Default for MailboxOverflowStrategy {
    fn default() -> (r: Self)
        ensures
            r == MailboxOverflowStrategy::RejectNew,
    {
        MailboxOverflowStrategy::RejectNew
    }
}

/// Complete Component-owned policy of one concrete Runtime Mailbox.
#[derive(Debug, Clone, Copy, PartialEq, Eq, Structural)]
pub struct MailboxPolicy {
    /// Maximum number of pending Deliveries.
    pub capacity: QueueCapacity,
    /// Decision invoked exactly once when the bound is reached.
    pub overflow: MailboxOverflowStrategy,
}

impl MailboxPolicy {
    /// Creates one explicit bounded Mailbox policy.
    pub fn new(capacity: QueueCapacity, overflow: MailboxOverflowStrategy) -> (r: Self)
        ensures
            r.capacity == capacity,
            r.overflow == overflow,
    {
        MailboxPolicy { capacity, overflow }
    }

    /// Returns the positive pending Delivery bound.
    pub fn capacity(self) -> (r: QueueCapacity)
        ensures
            r == self.capacity,
    {
        self.capacity
    }

    /// Returns the Component strategy invoked when the Mailbox is full.
    pub fn overflow(self) -> (r: MailboxOverflowStrategy)
        ensures
            r == self.overflow,
    {
        self.overflow
    }

    /// The prototype policy: the default bound, rejecting new Deliveries when full.
    pub open spec fn spec_default(r: Self) -> bool {
        r.capacity.spec_get() == DEFAULT_QUEUE_CAPACITY && r.overflow == MailboxOverflowStrategy::RejectNew
    }
}

impl Default for MailboxPolicy {
    fn default() -> (r: Self)
        ensures
            MailboxPolicy::spec_default(r),
    {
        MailboxPolicy { capacity: QueueCapacity::default(), overflow: MailboxOverflowStrategy::RejectNew }
    }
}

/// Complete Room contribution declared by a Component Definition.
#[derive(Debug, Clone, Copy, PartialEq, Eq, Structural)]
pub struct RoomDeclaration {
    /// Stable logical address preserved across Runtime lifecycles.
    pub address: RoomAddress,
    /// Explicit bound of the concrete Room distribution queue.
    pub capacity: QueueCapacity,
}

impl RoomDeclaration {
    /// Declares one logical Room and its concrete queue bound.
    pub fn new(address: RoomAddress, capacity: QueueCapacity) -> (r: Self)
        ensures
            r.address == address,
            r.capacity == capacity,
    {
        RoomDeclaration { address, capacity }
    }

    /// Returns the stable logical address.
    pub fn address(self) -> (r: RoomAddress)
        ensures
            r == self.address,
    {
        self.address
    }

    /// Returns the concrete Room queue bound.
    pub fn capacity(self) -> (r: QueueCapacity)
        ensures
            r == self.capacity,
    {
        self.capacity
    }
}

/// Room relation contributed by one subscribing Component Definition.
#[derive(Debug, Clone, Copy, PartialEq, Eq, Structural)]
pub struct SubscriptionDeclaration {
    /// Logical Room whose Deliveries the Component accepts.
    pub room: RoomAddress,
}

impl SubscriptionDeclaration {
    /// Declares a Component's interest in one logical Room.
    pub fn new(room: RoomAddress) -> (r: Self)
        ensures
            r.room == room,
    {
        SubscriptionDeclaration { room }
    }

    /// Returns the subscribed logical Room address.
    pub fn room(self) -> (r: RoomAddress)
        ensures
            r == self.room,
    {
        self.room
    }
}

/// Contract route from an emitted Event type to one owned logical Room.
#[derive(Debug, Clone, Copy, PartialEq, Eq, Structural)]
pub struct EmissionDeclaration {
    /// Event payload contract eligible for this emit route.
    pub event_type: EventTypeId,
    /// Declared Room that distributes matching Events to subscribers.
    pub room: RoomAddress,
}

impl EmissionDeclaration {
    /// Declares one typed Event route owned by the emitting Component.
    pub fn new(event_type: EventTypeId, room: RoomAddress) -> (r: Self)
        ensures
            r.event_type == event_type,
            r.room == room,
    {
        EmissionDeclaration { event_type, room }
    }

    /// Returns the Event payload contract eligible for this route.
    pub fn event_type(self) -> (r: EventTypeId)
        ensures
            r == self.event_type,
    {
        self.event_type
    }

    /// Returns the owned logical Room used for distribution.
    pub fn room(self) -> (r: RoomAddress)
        ensures
            r == self.room,
    {
        self.room
    }
}

/// Registration of one Component as a listener for a broadcast Event type.
#[derive(Debug, Clone, Copy, PartialEq, Eq, Structural)]
pub struct BroadcastSubscription {
    /// Event payload contract accepted from broadcast.
    pub event_type: EventTypeId,
}

impl BroadcastSubscription {
    /// Registers one broadcast Event payload contract.
    pub fn new(event_type: EventTypeId) -> (r: Self)
        ensures
            r.event_type == event_type,
    {
        BroadcastSubscription { event_type }
    }

    /// Returns the broadcast Event payload contract.
    pub fn event_type(self) -> (r: EventTypeId)
        ensures
            r == self.event_type,
    {
        self.event_type
    }
}

/// Mathematical content of a Routing Contract.
pub struct RoutingView {
    pub mailbox_policy: MailboxPolicy,
    pub rooms: Seq<RoomDeclaration>,
    pub subscriptions: Seq<SubscriptionDeclaration>,
    pub emissions: Seq<EmissionDeclaration>,
    pub broadcast_subscriptions: Seq<BroadcastSubscription>,
}

/// Cohesive Room, Mailbox, emit, and broadcast contract of a Component.
#[derive(Debug, PartialEq, Eq)]
pub struct RoutingContract {
    /// Explicit bound of each concrete Runtime Mailbox.
    pub mailbox_policy: MailboxPolicy,
    /// Logical Rooms materialized only while an Instance is Active.
    pub rooms: Vec<RoomDeclaration>,
    /// Room relations materialized into the active Runtime Mailbox.
    pub subscriptions: Vec<SubscriptionDeclaration>,
    /// Typed emit routes owned by this Component contract.
    pub emissions: Vec<EmissionDeclaration>,
    /// Broadcast Event contracts observed by an Active Instance.
    pub broadcast_subscriptions: Vec<BroadcastSubscription>,
}

impl View for RoutingContract {
    type V = RoutingView;

    open spec fn view(&self) -> RoutingView {
        RoutingView {
            mailbox_policy: self.mailbox_policy,
            rooms: self.rooms@,
            subscriptions: self.subscriptions@,
            emissions: self.emissions@,
            broadcast_subscriptions: self.broadcast_subscriptions@,
        }
    }
}

impl Clone for RoutingContract {
    fn clone(&self) -> (r: Self)
        ensures
            r@ == self@,
    {
        RoutingContract {
            mailbox_policy: self.mailbox_policy,
            rooms: self.rooms.clone(),
            subscriptions: self.subscriptions.clone(),
            emissions: self.emissions.clone(),
            broadcast_subscriptions: self.broadcast_subscriptions.clone(),
        }
    }
}

impl RoutingContract {
    /// Creates an empty routing contract with the prototype Mailbox bound.
    pub fn new() -> (r: Self)
        ensures
            MailboxPolicy::spec_default(r.mailbox_policy),
            r.rooms@ == Seq::<RoomDeclaration>::empty(),
            r.subscriptions@ == Seq::<SubscriptionDeclaration>::empty(),
            r.emissions@ == Seq::<EmissionDeclaration>::empty(),
            r.broadcast_subscriptions@ == Seq::<BroadcastSubscription>::empty(),
    {
        RoutingContract {
            mailbox_policy: MailboxPolicy::default(),
            rooms: Vec::new(),
            subscriptions: Vec::new(),
            emissions: Vec::new(),
            broadcast_subscriptions: Vec::new(),
        }
    }

    /// Sets the complete Component-owned Runtime Mailbox policy.
    pub fn with_mailbox_policy(self, policy: MailboxPolicy) -> (r: Self)
        ensures
            r@ == (RoutingView { mailbox_policy: policy, ..self@ }),
    {
        RoutingContract { mailbox_policy: policy, ..self }
    }

    /// Adds one logical Room contribution.
    pub fn with_room(self, room: RoomDeclaration) -> (r: Self)
        ensures
            r@ == (RoutingView { rooms: self@.rooms.push(room), ..self@ }),
    {
        let mut r = self;
        r.rooms.push(room);
        r
    }

    /// Adds one declared Room relation to the Component Mailbox.
    pub fn with_subscription(self, subscription: SubscriptionDeclaration) -> (r: Self)
        ensures
            r@ == (RoutingView { subscriptions: self@.subscriptions.push(subscription), ..self@ }),
    {
        let mut r = self;
        r.subscriptions.push(subscription);
        r
    }

    /// Adds one typed emit route owned by this Component.
    pub fn with_emission(self, emission: EmissionDeclaration) -> (r: Self)
        ensures
            r@ == (RoutingView { emissions: self@.emissions.push(emission), ..self@ }),
    {
        let mut r = self;
        r.emissions.push(emission);
        r
    }

    /// Adds one broadcast Event contract observed by this Component.
    pub fn with_broadcast_subscription(self, subscription: BroadcastSubscription) -> (r: Self)
        ensures
            r@ == (RoutingView { broadcast_subscriptions: self@.broadcast_subscriptions.push(subscription), ..self@ }),
    {
        let mut r = self;
        r.broadcast_subscriptions.push(subscription);
        r
    }

    /// Returns the complete Component-owned Runtime Mailbox policy.
    pub fn mailbox_policy(&self) -> (r: MailboxPolicy)
        ensures
            r == self.mailbox_policy,
    {
        self.mailbox_policy
    }

    /// Returns logical Rooms in declaration order.
    pub fn rooms(&self) -> (r: &[RoomDeclaration])
        ensures
            r@ == self.rooms@,
    {
        self.rooms.as_slice()
    }

    /// Returns Room relations in declaration order.
    pub fn subscriptions(&self) -> (r: &[SubscriptionDeclaration])
        ensures
            r@ == self.subscriptions@,
    {
        self.subscriptions.as_slice()
    }

    /// Returns typed emit routes in declaration order.
    pub fn emissions(&self) -> (r: &[EmissionDeclaration])
        ensures
            r@ == self.emissions@,
    {
        self.emissions.as_slice()
    }

    /// Returns broadcast listener contracts in declaration order.
    pub fn broadcast_subscriptions(&self) -> (r: &[BroadcastSubscription])
        ensures
            r@ == self.broadcast_subscriptions@,
    {
        self.broadcast_subscriptions.as_slice()
    }
}

impl Default for RoutingContract {
    fn default() -> (r: Self)
        ensures
            MailboxPolicy::spec_default(r.mailbox_policy),
            r.rooms@ == Seq::<RoomDeclaration>::empty(),
            r.subscriptions@ == Seq::<SubscriptionDeclaration>::empty(),
            r.emissions@ == Seq::<EmissionDeclaration>::empty(),
            r.broadcast_subscriptions@ == Seq::<BroadcastSubscription>::empty(),
    {
        RoutingContract::new()
    }
}

/// Mathematical content of an Event.
pub struct EventView {
    pub id: EventId,
    pub event_type: EventTypeId,
    pub payload: Seq<u8>,
}

/// Typed message that provokes or propagates a state evolution.
#[derive(Debug, PartialEq, Eq)]
pub struct Event {
    /// Stable identity supplied by the Event producer.
    pub id: EventId,
    /// Declared payload contract understood by participating Components.
    pub contract: EventTypeId,
    /// Opaque contract-owned bytes never interpreted by the Kernel.
    pub payload: Vec<u8>,
}

impl View for Event {
    type V = EventView;

    open spec fn view(&self) -> EventView {
        EventView { id: self.id, event_type: self.contract, payload: self.payload@ }
    }
}

impl Clone for Event {
    fn clone(&self) -> (r: Self)
        ensures
            r@ == self@,
    {
        Event { id: self.id, contract: self.contract, payload: self.payload.clone() }
    }
}

impl Event {
    /// Creates one typed Event with opaque contract-owned payload bytes.
    pub fn new(id: EventId, event_type: EventTypeId, payload: Vec<u8>) -> (r: Self)
        ensures
            r@ == (EventView { id, event_type, payload: payload@ }),
    {
        Event { id, contract: event_type, payload }
    }

    /// Returns the stable Event identity.
    pub fn id(&self) -> (r: EventId)
        ensures
            r == self.id,
    {
        self.id
    }

    /// Returns the declared Event payload contract.
    pub fn event_type(&self) -> (r: EventTypeId)
        ensures
            r == self.contract,
    {
        self.contract
    }

    /// Returns the opaque payload bytes.
    pub fn payload(&self) -> (r: &[u8])
        ensures
            r@ == self.payload@,
    {
        self.payload.as_slice()
    }

    /// Reports whether two Events carry the same identity, type and payload.
    pub fn same_as(&self, other: &Event) -> (r: bool)
        ensures
            r == (self@ == other@),
    {
        if self.id != other.id || self.contract != other.contract || self.payload.len() != other.payload.len() {
            return false;
        }
        let mut i: usize = 0;
        while i < self.payload.len()
            invariant
                i <= self.payload@.len(),
                self.payload@.len() == other.payload@.len(),
                forall|j: int| 0 <= j < i ==> self.payload@[j] == other.payload@[j],
            decreases self.payload@.len() - i,
        {
            if self.payload[i] != other.payload[i] {
                return false;
            }
            i += 1;
        }
        assert(self.payload@ =~= other.payload@);
        true
    }
}

/// Mathematical content of a Component Definition.
pub struct DefinitionView {
    pub id: ComponentDefinitionId,
    pub requirements: Seq<Requirement>,
    pub capabilities: Seq<Capability>,
    pub routing: RoutingView,
}

/// The complete declarative identity and contributions of a Component.
#[derive(Debug, PartialEq, Eq)]
pub struct ComponentDefinition {
    /// Stable identity of the declaration.
    pub id: ComponentDefinitionId,
    /// Capability needs contributed to the System Graph.
    pub requirements: Vec<Requirement>,
    /// Capability offers contributed to the System Graph.
    pub capabilities: Vec<Capability>,
    /// Complete Room, Mailbox, emit, and broadcast contribution.
    pub routing: RoutingContract,
}

impl View for ComponentDefinition {
    type V = DefinitionView;

    open spec fn view(&self) -> DefinitionView {
        DefinitionView {
            id: self.id,
            requirements: self.requirements@,
            capabilities: self.capabilities@,
            routing: self.routing@,
        }
    }
}

impl Clone for ComponentDefinition {
    fn clone(&self) -> (r: Self)
        ensures
            r@ == self@,
    {
        ComponentDefinition {
            id: self.id,
            requirements: self.requirements.clone(),
            capabilities: self.capabilities.clone(),
            routing: self.routing.clone(),
        }
    }
}

impl Keyed for ComponentDefinition {
    open spec fn spec_key(&self) -> u64 {
        self.id.0
    }

    fn key(&self) -> (k: u64) {
        self.id.0
    }
}

impl ComponentDefinition {
    /// Creates a complete declaration with no contributions.
    pub fn new(id: ComponentDefinitionId) -> (r: Self)
        ensures
            r.id == id,
            r.requirements@ == Seq::<Requirement>::empty(),
            r.capabilities@ == Seq::<Capability>::empty(),
            MailboxPolicy::spec_default(r.routing.mailbox_policy),
            r.routing.rooms@ == Seq::<RoomDeclaration>::empty(),
            r.routing.subscriptions@ == Seq::<SubscriptionDeclaration>::empty(),
            r.routing.emissions@ == Seq::<EmissionDeclaration>::empty(),
            r.routing.broadcast_subscriptions@ == Seq::<BroadcastSubscription>::empty(),
    {
        ComponentDefinition { id, requirements: Vec::new(), capabilities: Vec::new(), routing: RoutingContract::new() }
    }

    /// Adds one inspectable Capability to this complete declaration.
    pub fn with_capability(self, capability: Capability) -> (r: Self)
        ensures
            r@ == (DefinitionView { capabilities: self@.capabilities.push(capability), ..self@ }),
    {
        let mut r = self;
        r.capabilities.push(capability);
        r
    }

    /// Adds one inspectable Requirement to this complete declaration.
    pub fn with_requirement(self, requirement: Requirement) -> (r: Self)
        ensures
            r@ == (DefinitionView { requirements: self@.requirements.push(requirement), ..self@ }),
    {
        let mut r = self;
        r.requirements.push(requirement);
        r
    }

    /// Sets the complete cohesive Event routing contribution.
    pub fn with_routing(self, routing: RoutingContract) -> (r: Self)
        ensures
            r@ == (DefinitionView { routing: routing@, ..self@ }),
    {
        ComponentDefinition { routing, ..self }
    }

    /// Returns the stable Component Definition identity.
    pub fn id(&self) -> (r: ComponentDefinitionId)
        ensures
            r == self.id,
    {
        self.id
    }

    /// Returns every Requirement in declaration order.
    pub fn requirements(&self) -> (r: &[Requirement])
        ensures
            r@ == self.requirements@,
    {
        self.requirements.as_slice()
    }

    /// Returns every Capability in declaration order.
    pub fn capabilities(&self) -> (r: &[Capability])
        ensures
            r@ == self.capabilities@,
    {
        self.capabilities.as_slice()
    }

    /// Returns the complete cohesive Event routing contribution.
    pub fn routing(&self) -> (r: &RoutingContract)
        ensures
            r@ == self.routing@,
    {
        &self.routing
    }
}

} // verus!
