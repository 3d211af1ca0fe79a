//! Storage, registration and read-only observation of a Runtime's single System Graph.
use vstd::prelude::*;
use crate::declaration::{BroadcastSubscription, ComponentDefinition, RoutingContract, RoutingView, SubscriptionDeclaration};
use crate::error::KernelError;
use crate::identity::{
    CapabilityId, ComponentDefinitionId, ComponentInstanceId, ContextId, EffectId, FacetId,
    FacetSchemaId, RequirementId, RoomAddress,
};
use crate::keyed::{Keyed, KeyedVec, keys_unique, lemma_seq_to_map_push, seq_has_key, seq_to_map};
use crate::mailbox::{ComponentRuntime, Room, Subscription};
use crate::search::{first_where, lemma_first_where_at, lemma_first_where_none};
use crate::system::{
    Binding, Capability, CapabilityPlacement, ComponentInstance, Context, Effect, Facet,
    FacetSchema, Requirement,
};

verus! {

/// Owned mutable graph state private to one Kernel Runtime.
#[derive(Debug)]
pub struct GraphState {
    /// Complete Component declarations indexed by identity.
    pub definitions: KeyedVec<ComponentDefinition>,
    /// Living Component occurrences indexed by identity.
    pub instances: KeyedVec<ComponentInstance>,
    /// Requirements contributed by every declaration.
    pub requirements: KeyedVec<Requirement>,
    /// Capability offers and their publishing Component Instances.
    pub capabilities: KeyedVec<CapabilityPlacement>,
    /// Explicit resolution relations indexed by Requirement identity.
    pub bindings: KeyedVec<Binding>,
    /// Living execution state indexed by Component Instance identity.
    pub runtimes: KeyedVec<ComponentRuntime>,
    /// Living lifecycle-owned Effects indexed by identity.
    pub effects: KeyedVec<Effect>,
    /// Structural Contexts indexed by identity.
    pub contexts: KeyedVec<Context>,
    /// Addon-owned Facet Schemas indexed by identity.
    pub facet_schemas: KeyedVec<FacetSchema>,
    /// Typed Facet attachments indexed by identity.
    pub facets: KeyedVec<Facet>,
    /// Concrete Rooms of Active Runtimes indexed by logical address.
    pub rooms: KeyedVec<Room>,
    /// Living Room relations ordered by Room and subscriber.
    pub subscriptions: Vec<Subscription>,
}

/// Subscriptions ordered by Room address, then subscriber; equal pairs keep arrival order.
pub open spec fn subscriptions_sorted(s: Seq<Subscription>) -> bool {
    forall|i: int, j: int| 0 <= i < j < s.len() ==> !subscription_before(#[trigger] s[j], #[trigger] s[i])
}

/// The position of a Subscription in the order by Room address, then subscriber.
pub open spec fn subscription_rank(a: Subscription) -> int {
    a.room.0 as int * 0x1_0000_0000_0000_0000 + a.subscriber.0 as int
}

/// Lexicographic order on (Room address, subscriber).
pub open spec fn subscription_before(a: Subscription, b: Subscription) -> bool {
    subscription_rank(a) < subscription_rank(b)
}

/// The Capability placements that one registration publishes for `instance_id`.
pub open spec fn placements_of(capabilities: Seq<Capability>, instance_id: ComponentInstanceId) -> Seq<CapabilityPlacement> {
    capabilities.map_values(|c: Capability| CapabilityPlacement { capability: c, provider_id: instance_id })
}

/// Requirement `i` of a registration reuses an identity of the graph or of an earlier entry.
pub open spec fn requirement_conflict(g: GraphState, reqs: Seq<Requirement>, i: int) -> bool {
    g.requirements@.contains_key(reqs[i].id.0) || exists|j: int| 0 <= j < i && reqs[j].id == reqs[i].id
}

/// Capability `i` of a registration reuses an identity of the graph or of an earlier entry.
pub open spec fn capability_conflict(g: GraphState, caps: Seq<Capability>, i: int) -> bool {
    g.capabilities@.contains_key(caps[i].id.0) || exists|j: int| 0 <= j < i && caps[j].id == caps[i].id
}

/// The conflict predicate over the Requirements of a registration.
pub open spec fn requirement_conflicts(g: GraphState, reqs: Seq<Requirement>) -> spec_fn(int) -> bool {
    |i: int| requirement_conflict(g, reqs, i)
}

/// The conflict predicate over the Capabilities of a registration.
pub open spec fn capability_conflicts(g: GraphState, caps: Seq<Capability>) -> spec_fn(int) -> bool {
    |i: int| capability_conflict(g, caps, i)
}

/// Some Definition of the graph declares a Room at `address`.
pub open spec fn address_declared(g: GraphState, address: RoomAddress) -> bool {
    exists|k: u64| #[trigger] g.definitions@.contains_key(k) && exists|i: int|
        0 <= i < g.definitions@[k].routing.rooms@.len() && #[trigger] g.definitions@[k].routing.rooms@[i].address == address
}

/// Room `i` of a routing contract reuses a declared address or an earlier one of the contract.
pub open spec fn room_conflict(g: GraphState, routing: RoutingView, i: int) -> bool {
    address_declared(g, routing.rooms[i].address) || exists|j: int| 0 <= j < i && routing.rooms[j].address == routing.rooms[i].address
}

/// Emission `i` routes to a Room the contract does not declare.
pub open spec fn emission_conflict(routing: RoutingView, i: int) -> bool {
    !exists|j: int| 0 <= j < routing.rooms.len() && routing.rooms[j].address == routing.emissions[i].room
}

/// The conflict predicate over the Rooms of a contract.
pub open spec fn room_conflicts(g: GraphState, routing: RoutingView) -> spec_fn(int) -> bool {
    |i: int| room_conflict(g, routing, i)
}

/// The conflict predicate over the emissions of a contract.
pub open spec fn emission_conflicts(routing: RoutingView) -> spec_fn(int) -> bool {
    |i: int| emission_conflict(routing, i)
}

/// The routing declaration error of a contract, checked in declaration order.
pub open spec fn routing_error(g: GraphState, routing: RoutingView) -> Option<KernelError> {
    let rooms = first_where(routing.rooms.len() as int, room_conflicts(g, routing));
    let subs = first_where(routing.subscriptions.len() as int, |i: int| exists|j: int| 0 <= j < i && routing.subscriptions[j].room == routing.subscriptions[i].room);
    let emits = first_where(routing.emissions.len() as int, emission_conflicts(routing));
    let casts = first_where(routing.broadcast_subscriptions.len() as int, |i: int| exists|j: int| 0 <= j < i && routing.broadcast_subscriptions[j].event_type == routing.broadcast_subscriptions[i].event_type);
    if rooms is Some {
        Some(KernelError::DuplicateRoomAddress(routing.rooms[rooms->0].address))
    } else if subs is Some {
        Some(KernelError::DuplicateSubscription(routing.subscriptions[subs->0].room))
    } else if emits is Some {
        Some(KernelError::UndeclaredEmissionRoom(routing.emissions[emits->0].room))
    } else if casts is Some {
        Some(KernelError::DuplicateBroadcastSubscription(routing.broadcast_subscriptions[casts->0].event_type))
    } else {
        None
    }
}

/// The identity error of a registration, checked in the order the Kernel checks them.
pub open spec fn identity_error(g: GraphState, definition: ComponentDefinition, instance_id: ComponentInstanceId) -> Option<KernelError> {
    let reqs = definition.requirements@;
    let caps = definition.capabilities@;
    let req = first_where(reqs.len() as int, requirement_conflicts(g, reqs));
    let cap = first_where(caps.len() as int, capability_conflicts(g, caps));
    if g.definitions@.contains_key(definition.id.0) {
        Some(KernelError::DuplicateComponentDefinition(definition.id))
    } else if g.instances@.contains_key(instance_id.0) {
        Some(KernelError::DuplicateComponentInstance(instance_id))
    } else if req is Some {
        Some(KernelError::DuplicateRequirement(reqs[req->0].id))
    } else if cap is Some {
        Some(KernelError::DuplicateCapability(caps[cap->0].id))
    } else {
        None
    }
}

/// The error that rejects a registration, if any.
pub open spec fn registration_error(g: GraphState, definition: ComponentDefinition, instance_id: ComponentInstanceId) -> Option<KernelError> {
    if identity_error(g, definition, instance_id) is Some {
        identity_error(g, definition, instance_id)
    } else {
        routing_error(g, definition.routing@)
    }
}

impl GraphState {
    /// Every table is ordered by key and the living Room relations are ordered.
    pub open spec fn wf(&self) -> bool {
        &&& self.definitions.wf()
        &&& self.instances.wf()
        &&& self.requirements.wf()
        &&& self.capabilities.wf()
        &&& self.bindings.wf()
        &&& self.runtimes.wf()
        &&& self.effects.wf()
        &&& self.contexts.wf()
        &&& self.facet_schemas.wf()
        &&& self.facets.wf()
        &&& self.rooms.wf()
        &&& subscriptions_sorted(self.subscriptions@)
    }

    /// The tables refer to one another: every Runtime, Binding and Instance
    /// belongs to a living entity, every declared Requirement is registered, an
    /// Instance owns its Definition alone, no two Requirement declarations share
    /// an identity, and exactly the Active Instances have a Runtime, each keyed by its
    /// Instance.
    pub open spec fn consistent(&self) -> bool {
        &&& forall|k: u64| #[trigger] self.runtimes@.contains_key(k) ==> self.instances@.contains_key(k)
        &&& forall|k: u64| #[trigger] self.instances@.contains_key(k)
            ==> (self.runtimes@.contains_key(k) <==> self.instances@[k].resolution == crate::system::ResolutionState::Active)
        &&& forall|k: u64| #[trigger] self.runtimes@.contains_key(k) ==> self.runtimes@[k].instance_id.0 == k
        &&& forall|k: u64| #[trigger] self.bindings@.contains_key(k) ==> self.requirements@.contains_key(k)
        &&& forall|k: u64| #[trigger] self.instances@.contains_key(k) ==> self.definitions@.contains_key(self.instances@[k].definition_id.0)
        &&& forall|d: u64, j: int| self.definitions@.contains_key(d) && 0 <= j < self.definitions@[d].requirements@.len()
            ==> self.requirements@.contains_key((#[trigger] self.definitions@[d].requirements@[j]).id.0)
        &&& forall|a: u64, b: u64| #[trigger] self.instances@.contains_key(a) && #[trigger] self.instances@.contains_key(b) && a != b
            ==> self.instances@[a].definition_id != self.instances@[b].definition_id
        &&& forall|d1: u64, d2: u64, i: int, j: int| self.definitions@.contains_key(d1) && self.definitions@.contains_key(d2) && d1 != d2
            && 0 <= i < self.definitions@[d1].requirements@.len() && 0 <= j < self.definitions@[d2].requirements@.len()
            ==> (#[trigger] self.definitions@[d1].requirements@[i]).id != (#[trigger] self.definitions@[d2].requirements@[j]).id
        &&& forall|d: u64, i: int, j: int| self.definitions@.contains_key(d) && 0 <= i < j < self.definitions@[d].requirements@.len()
            ==> (#[trigger] self.definitions@[d].requirements@[i]).id != (#[trigger] self.definitions@[d].requirements@[j]).id
    }

    /// The graph holds nothing.
    pub open spec fn is_empty(&self) -> bool {
        &&& self.definitions@ == Map::<u64, ComponentDefinition>::empty()
        &&& self.instances@ == Map::<u64, ComponentInstance>::empty()
        &&& self.requirements@ == Map::<u64, Requirement>::empty()
        &&& self.capabilities@ == Map::<u64, CapabilityPlacement>::empty()
        &&& self.bindings@ == Map::<u64, Binding>::empty()
        &&& self.runtimes@ == Map::<u64, ComponentRuntime>::empty()
        &&& self.effects@ == Map::<u64, Effect>::empty()
        &&& self.contexts@ == Map::<u64, Context>::empty()
        &&& self.facet_schemas@ == Map::<u64, FacetSchema>::empty()
        &&& self.facets@ == Map::<u64, Facet>::empty()
        &&& self.rooms@ == Map::<u64, Room>::empty()
        &&& self.subscriptions@.len() == 0
    }

    /// Creates an empty graph.
    pub fn new() -> (r: Self)
        ensures
            r.wf(),
            r.is_empty(),
    {
        GraphState {
            definitions: KeyedVec::new(),
            instances: KeyedVec::new(),
            requirements: KeyedVec::new(),
            capabilities: KeyedVec::new(),
            bindings: KeyedVec::new(),
            runtimes: KeyedVec::new(),
            effects: KeyedVec::new(),
            contexts: KeyedVec::new(),
            facet_schemas: KeyedVec::new(),
            facets: KeyedVec::new(),
            rooms: KeyedVec::new(),
            subscriptions: Vec::new(),
        }
    }

    /// Position of the first Requirement of a registration that reuses an identity.
    pub fn first_requirement_conflict(&self, reqs: &[Requirement]) -> (r: Option<usize>)
        requires
            self.wf(),
        ensures
            r matches Some(i) ==> i < reqs@.len(),
            match r {
                Some(i) => first_where(reqs@.len() as int, requirement_conflicts(*self, reqs@)) == Some(i as int),
                None => first_where(reqs@.len() as int, requirement_conflicts(*self, reqs@)) == None::<int>,
            },
    {
        let ghost p = requirement_conflicts(*self, reqs@);
        let mut i: usize = 0;
        while i < reqs.len()
            invariant
                self.wf(),
                p == requirement_conflicts(*self, reqs@),
                i <= reqs@.len(),
                forall|j: int| 0 <= j < i ==> !#[trigger] p(j),
            decreases reqs@.len() - i,
        {
            let id = reqs[i].id;
            let mut dup = self.requirements.contains_key(id.0);
            let mut j: usize = 0;
            while j < i && !dup
                invariant
                    j <= i < reqs@.len(),
                    id == reqs@[i as int].id,
                    dup ==> self.requirements@.contains_key(id.0) || exists|q: int| 0 <= q < j && reqs@[q].id == id,
                    !dup ==> !self.requirements@.contains_key(id.0) && forall|q: int| 0 <= q < j ==> #[trigger] reqs@[q].id != id,
                decreases i - j,
            {
                if reqs[j].id == id {
                    dup = true;
                }
                j += 1;
            }
            if dup {
                proof {
                    assert(p(i as int));
                    lemma_first_where_at(reqs@.len() as int, p, i as int);
                }
                return Some(i);
            }
            assert(j == i);
            assert(!(exists|q: int| 0 <= q < i && reqs@[q].id == reqs@[i as int].id));
            assert(!requirement_conflict(*self, reqs@, i as int));
            assert(!p(i as int));
            i += 1;
        }
        proof {
            lemma_first_where_none(reqs@.len() as int, p);
        }
        None
    }

    /// Position of the first Capability of a registration that reuses an identity.
    pub fn first_capability_conflict(&self, caps: &[Capability]) -> (r: Option<usize>)
        requires
            self.wf(),
        ensures
            r matches Some(i) ==> i < caps@.len(),
            match r {
                Some(i) => first_where(caps@.len() as int, capability_conflicts(*self, caps@)) == Some(i as int),
                None => first_where(caps@.len() as int, capability_conflicts(*self, caps@)) == None::<int>,
            },
    {
        let ghost p = capability_conflicts(*self, caps@);
        let mut i: usize = 0;
        while i < caps.len()
            invariant
                self.wf(),
                p == capability_conflicts(*self, caps@),
                i <= caps@.len(),
                forall|j: int| 0 <= j < i ==> !#[trigger] p(j),
            decreases caps@.len() - i,
        {
            let id = caps[i].id;
            let mut dup = self.capabilities.contains_key(id.0);
            let mut j: usize = 0;
            while j < i && !dup
                invariant
                    j <= i < caps@.len(),
                    id == caps@[i as int].id,
                    dup ==> self.capabilities@.contains_key(id.0) || exists|q: int| 0 <= q < j && caps@[q].id == id,
                    !dup ==> !self.capabilities@.contains_key(id.0) && forall|q: int| 0 <= q < j ==> #[trigger] caps@[q].id != id,
                decreases i - j,
            {
                if caps[j].id == id {
                    dup = true;
                }
                j += 1;
            }
            if dup {
                proof {
                    assert(p(i as int));
                    lemma_first_where_at(caps@.len() as int, p, i as int);
                }
                return Some(i);
            }
            assert(j == i);
            assert(!(exists|q: int| 0 <= q < i && caps@[q].id == caps@[i as int].id));
            assert(!capability_conflict(*self, caps@, i as int));
            assert(!p(i as int));
            i += 1;
        }
        proof {
            lemma_first_where_none(caps@.len() as int, p);
        }
        None
    }

    /// Checks every identity contributed by a registration before graph mutation.
    #[verifier::rlimit(40)]
    pub fn validate_registration(&self, definition: &ComponentDefinition, instance_id: ComponentInstanceId) -> (r: Result<(), KernelError>)
        requires
            self.wf(),
        ensures
            r == match identity_error(*self, *definition, instance_id) {
                Some(e) => Err(e),
                None => Ok(()),
            },
    {
        if self.definitions.contains_key(definition.id.0) {
            return Err(KernelError::DuplicateComponentDefinition(definition.id));
        }
        if self.instances.contains_key(instance_id.0) {
            return Err(KernelError::DuplicateComponentInstance(instance_id));
        }
        match self.first_requirement_conflict(definition.requirements.as_slice()) {
            Some(i) => {
                return Err(KernelError::DuplicateRequirement(definition.requirements[i].id));
            },
            None => {},
        }
        match self.first_capability_conflict(definition.capabilities.as_slice()) {
            Some(i) => {
                return Err(KernelError::DuplicateCapability(definition.capabilities[i].id));
            },
            None => {},
        }
        Ok(())
    }

    /// Position of the first Subscription of a routing contract that repeats an earlier one.
    pub fn first_subscription_conflict(decls: &[SubscriptionDeclaration]) -> (r: Option<usize>)
        ensures
            r matches Some(i) ==> i < decls@.len(),
            match r {
                Some(i) => first_where(decls@.len() as int, |i: int| exists|j: int| 0 <= j < i && decls@[j].room == decls@[i].room) == Some(i as int),
                None => first_where(decls@.len() as int, |i: int| exists|j: int| 0 <= j < i && decls@[j].room == decls@[i].room) == None::<int>,
            },
    {
        let ghost p = |i: int| exists|j: int| 0 <= j < i && decls@[j].room == decls@[i].room;
        let mut i: usize = 0;
        while i < decls.len()
            invariant
                p == (|i: int| exists|j: int| 0 <= j < i && decls@[j].room == decls@[i].room),
                i <= decls@.len(),
                forall|j: int| 0 <= j < i ==> !#[trigger] p(j),
            decreases decls@.len() - i,
        {
            let key = decls[i].room;
            let mut dup = false;
            let mut j: usize = 0;
            while j < i && !dup
                invariant
                    j <= i < decls@.len(),
                    key == decls@[i as int].room,
                    dup ==> exists|q: int| 0 <= q < j && decls@[q].room == key,
                    !dup ==> forall|q: int| 0 <= q < j ==> #[trigger] decls@[q].room != key,
                decreases i - j,
            {
                if decls[j].room == key {
                    dup = true;
                }
                j += 1;
            }
            if dup {
                proof {
                    assert(p(i as int));
                    lemma_first_where_at(decls@.len() as int, p, i as int);
                }
                return Some(i);
            }
            assert(!p(i as int));
            i += 1;
        }
        proof {
            lemma_first_where_none(decls@.len() as int, p);
        }
        None
    }

    /// Position of the first broadcast listener of a routing contract that repeats an earlier one.
    pub fn first_broadcast_conflict(decls: &[BroadcastSubscription]) -> (r: Option<usize>)
        ensures
            r matches Some(i) ==> i < decls@.len(),
            match r {
                Some(i) => first_where(decls@.len() as int, |i: int| exists|j: int| 0 <= j < i && decls@[j].event_type == decls@[i].event_type) == Some(i as int),
                None => first_where(decls@.len() as int, |i: int| exists|j: int| 0 <= j < i && decls@[j].event_type == decls@[i].event_type) == None::<int>,
            },
    {
        let ghost p = |i: int| exists|j: int| 0 <= j < i && decls@[j].event_type == decls@[i].event_type;
        let mut i: usize = 0;
        while i < decls.len()
            invariant
                p == (|i: int| exists|j: int| 0 <= j < i && decls@[j].event_type == decls@[i].event_type),
                i <= decls@.len(),
                forall|j: int| 0 <= j < i ==> !#[trigger] p(j),
            decreases decls@.len() - i,
        {
            let key = decls[i].event_type;
            let mut dup = false;
            let mut j: usize = 0;
            while j < i && !dup
                invariant
                    j <= i < decls@.len(),
                    key == decls@[i as int].event_type,
                    dup ==> exists|q: int| 0 <= q < j && decls@[q].event_type == key,
                    !dup ==> forall|q: int| 0 <= q < j ==> #[trigger] decls@[q].event_type != key,
                decreases i - j,
            {
                if decls[j].event_type == key {
                    dup = true;
                }
                j += 1;
            }
            if dup {
                proof {
                    assert(p(i as int));
                    lemma_first_where_at(decls@.len() as int, p, i as int);
                }
                return Some(i);
            }
            assert(!p(i as int));
            i += 1;
        }
        proof {
            lemma_first_where_none(decls@.len() as int, p);
        }
        None
    }

    /// Reports whether some Definition of the graph declares a Room at `address`.
    pub fn address_declared(&self, address: RoomAddress) -> (r: bool)
        requires
            self.wf(),
        ensures
            r == address_declared(*self, address),
    {
        proof {
            self.definitions.lemma_view();
        }
        let mut d: usize = 0;
        while d < self.definitions.len()
            invariant
                self.wf(),
                d <= self.definitions.seq().len(),
                forall|e: int, i: int| 0 <= e < d && 0 <= i < self.definitions.seq()[e].routing.rooms@.len()
                    ==> #[trigger] self.definitions.seq()[e].routing.rooms@[i].address != address,
            decreases self.definitions.seq().len() - d,
        {
            let rooms = self.definitions.at(d).routing.rooms.as_slice();
            let mut i: usize = 0;
            while i < rooms.len()
                invariant
                    self.wf(),
                    d < self.definitions.seq().len(),
                    rooms@ == self.definitions.seq()[d as int].routing.rooms@,
                    i <= rooms@.len(),
                    forall|j: int| 0 <= j < i ==> #[trigger] rooms@[j].address != address,
                decreases rooms@.len() - i,
            {
                if rooms[i].address == address {
                    proof {
                        self.definitions.lemma_view();
                        let k = self.definitions.seq()[d as int].spec_key();
                        assert(self.definitions@.contains_key(k));
                        assert(self.definitions@[k].routing.rooms@[i as int].address == address);
                    }
                    return true;
                }
                i += 1;
            }
            d += 1;
        }
        proof {
            self.definitions.lemma_view();
            if address_declared(*self, address) {
                let k = choose|k: u64| #[trigger] self.definitions@.contains_key(k) && exists|i: int|
                    0 <= i < self.definitions@[k].routing.rooms@.len() && #[trigger] self.definitions@[k].routing.rooms@[i].address == address;
                let e = choose|e: int| 0 <= e < self.definitions.seq().len() && self.definitions.seq()[e].id.0 == k;
                assert(self.definitions.seq()[e] == self.definitions@[k]);
                let i = choose|i: int| 0 <= i < self.definitions@[k].routing.rooms@.len() && #[trigger] self.definitions@[k].routing.rooms@[i].address == address;
                assert(self.definitions.seq()[e].routing.rooms@[i].address == address);
            }
        }
        false
    }

    /// Position of the first Room of a contract that reuses a declared or earlier address.
    pub fn first_room_conflict(&self, routing: &RoutingContract) -> (r: Option<usize>)
        requires
            self.wf(),
        ensures
            r matches Some(i) ==> i < routing.rooms@.len(),
            match r {
                Some(i) => first_where(routing.rooms@.len() as int, room_conflicts(*self, routing@)) == Some(i as int),
                None => first_where(routing.rooms@.len() as int, room_conflicts(*self, routing@)) == None::<int>,
            },
    {
        let ghost p = room_conflicts(*self, routing@);
        let rooms = routing.rooms.as_slice();
        let mut i: usize = 0;
        while i < rooms.len()
            invariant
                self.wf(),
                rooms@ == routing.rooms@,
                p == room_conflicts(*self, routing@),
                i <= rooms@.len(),
                forall|j: int| 0 <= j < i ==> !#[trigger] p(j),
            decreases rooms@.len() - i,
        {
            let key = rooms[i].address;
            let mut dup = self.address_declared(key);
            let mut j: usize = 0;
            while j < i && !dup
                invariant
                    j <= i < rooms@.len(),
                    key == rooms@[i as int].address,
                    dup ==> address_declared(*self, key) || exists|q: int| 0 <= q < j && rooms@[q].address == key,
                    !dup ==> !address_declared(*self, key) && forall|q: int| 0 <= q < j ==> #[trigger] rooms@[q].address != key,
                decreases i - j,
            {
                if rooms[j].address == key {
                    dup = true;
                }
                j += 1;
            }
            if dup {
                proof {
                    assert(p(i as int));
                    lemma_first_where_at(rooms@.len() as int, p, i as int);
                }
                return Some(i);
            }
            assert(!p(i as int));
            i += 1;
        }
        proof {
            lemma_first_where_none(rooms@.len() as int, p);
        }
        None
    }

    /// Position of the first emission of a contract routed to an undeclared Room.
    pub fn first_emission_conflict(routing: &RoutingContract) -> (r: Option<usize>)
        ensures
            r matches Some(i) ==> i < routing.emissions@.len(),
            match r {
                Some(i) => first_where(routing.emissions@.len() as int, emission_conflicts(routing@)) == Some(i as int),
                None => first_where(routing.emissions@.len() as int, emission_conflicts(routing@)) == None::<int>,
            },
    {
        let ghost p = emission_conflicts(routing@);
        let rooms = routing.rooms.as_slice();
        let emissions = routing.emissions.as_slice();
        let mut i: usize = 0;
        while i < emissions.len()
            invariant
                rooms@ == routing.rooms@,
                emissions@ == routing.emissions@,
                p == emission_conflicts(routing@),
                i <= emissions@.len(),
                forall|j: int| 0 <= j < i ==> !#[trigger] p(j),
            decreases emissions@.len() - i,
        {
            let key = emissions[i].room;
            let mut found = false;
            let mut j: usize = 0;
            while j < rooms.len() && !found
                invariant
                    i < emissions@.len(),
                    j <= rooms@.len(),
                    key == emissions@[i as int].room,
                    found ==> exists|q: int| 0 <= q < rooms@.len() && rooms@[q].address == key,
                    !found ==> forall|q: int| 0 <= q < j ==> #[trigger] rooms@[q].address != key,
                decreases rooms@.len() - j,
            {
                if rooms[j].address == key {
                    found = true;
                }
                j += 1;
            }
            if !found {
                proof {
                    assert(p(i as int));
                    lemma_first_where_at(emissions@.len() as int, p, i as int);
                }
                return Some(i);
            }
            proof {
                let q = choose|q: int| 0 <= q < rooms@.len() && rooms@[q].address == key;
                assert(routing@.rooms[q].address == routing@.emissions[i as int].room);
            }
            assert(!p(i as int));
            i += 1;
        }
        proof {
            lemma_first_where_none(emissions@.len() as int, p);
        }
        None
    }

    /// Validates logical routing declarations before graph mutation.
    #[verifier::rlimit(40)]
    pub fn validate_routing_registration(&self, definition: &ComponentDefinition) -> (r: Result<(), KernelError>)
        requires
            self.wf(),
        ensures
            r == match routing_error(*self, definition.routing@) {
                Some(e) => Err(e),
                None => Ok(()),
            },
    {
        let routing = &definition.routing;
        match self.first_room_conflict(routing) {
            Some(i) => {
                return Err(KernelError::DuplicateRoomAddress(routing.rooms[i].address));
            },
            None => {},
        }
        match Self::first_subscription_conflict(routing.subscriptions.as_slice()) {
            Some(i) => {
                return Err(KernelError::DuplicateSubscription(routing.subscriptions[i].room));
            },
            None => {},
        }
        match Self::first_emission_conflict(routing) {
            Some(i) => {
                return Err(KernelError::UndeclaredEmissionRoom(routing.emissions[i].room));
            },
            None => {},
        }
        match Self::first_broadcast_conflict(routing.broadcast_subscriptions.as_slice()) {
            Some(i) => {
                return Err(KernelError::DuplicateBroadcastSubscription(routing.broadcast_subscriptions[i].event_type));
            },
            None => {},
        }
        Ok(())
    }

    /// Every table other than the registration tables is unchanged.
    pub open spec fn same_except_registration(&self, old: GraphState) -> bool {
        &&& self.bindings@ == old.bindings@
        &&& self.runtimes@ == old.runtimes@
        &&& self.effects@ == old.effects@
        &&& self.contexts@ == old.contexts@
        &&& self.facet_schemas@ == old.facet_schemas@
        &&& self.facets@ == old.facets@
        &&& self.rooms@ == old.rooms@
        &&& self.subscriptions@ == old.subscriptions@
    }

    /// Inserts a complete declaration and an unresolved living occurrence atomically.
    ///
    /// Returns the first identity or routing violation, in the Kernel's checking
    /// order, before any mutation.
    #[verifier::rlimit(60)]
    pub fn register_pending(&mut self, definition: ComponentDefinition, instance_id: ComponentInstanceId) -> (r: Result<(), KernelError>)
        requires
            old(self).wf(),
        ensures
            final(self).wf(),
            match registration_error(*old(self), definition, instance_id) {
                Some(e) => r == Err::<(), KernelError>(e) && *final(self) == *old(self),
                None => r is Ok
                    && final(self).definitions@ == old(self).definitions@.insert(definition.id.0, definition)
                    && final(self).instances@ == old(self).instances@.insert(instance_id.0, ComponentInstance::pending_spec(instance_id, definition.id))
                    && final(self).requirements@ == old(self).requirements@.union_prefer_right(seq_to_map(definition.requirements@))
                    && final(self).capabilities@ == old(self).capabilities@.union_prefer_right(seq_to_map(placements_of(definition.capabilities@, instance_id)))
                    && final(self).same_except_registration(*old(self)),
            },
    {
        match self.validate_registration(&definition, instance_id) {
            Err(e) => {
                return Err(e);
            },
            Ok(()) => {},
        }
        match self.validate_routing_registration(&definition) {
            Err(e) => {
                return Err(e);
            },
            Ok(()) => {},
        }
        let ghost g0 = *self;
        let ghost reqs = definition.requirements@;
        let ghost caps = definition.capabilities@;
        proof {
            assert(first_where(reqs.len() as int, requirement_conflicts(g0, reqs)) is None);
            assert(first_where(caps.len() as int, capability_conflicts(g0, caps)) is None);
            assert forall|i: int| 0 <= i < reqs.len() implies !requirement_conflict(g0, reqs, i) by {
                if requirement_conflict(g0, reqs, i) {
                    assert(requirement_conflicts(g0, reqs)(i));
                }
            }
            assert forall|i: int| 0 <= i < caps.len() implies !capability_conflict(g0, caps, i) by {
                if capability_conflict(g0, caps, i) {
                    assert(capability_conflicts(g0, caps)(i));
                }
            }
        }
        let mut i: usize = 0;
        while i < definition.requirements.len()
            invariant
                self.wf(),
                reqs == definition.requirements@,
                i <= reqs.len(),
                forall|q: int| 0 <= q < reqs.len() ==> !requirement_conflict(g0, reqs, q),
                keys_unique(reqs.take(i as int)),
                self.requirements@ == g0.requirements@.union_prefer_right(seq_to_map(reqs.take(i as int))),
                self.definitions@ == g0.definitions@,
                self.instances@ == g0.instances@,
                self.capabilities@ == g0.capabilities@,
                self.same_except_registration(g0),
            decreases reqs.len() - i,
        {
            let req = definition.requirements[i];
            proof {
                assert(!requirement_conflict(g0, reqs, i as int));
                let t = reqs.take(i as int);
                assert(reqs.take(i as int + 1) =~= t.push(req));
                if seq_has_key(t, req.spec_key()) {
                    let q = choose|q: int| 0 <= q < t.len() && #[trigger] t[q].spec_key() == req.spec_key();
                    assert(reqs[q].id == reqs[i as int].id);
                }
                lemma_seq_to_map_push(t, req);
                assert(!self.requirements@.contains_key(req.spec_key()));
            }
            self.requirements.insert(req);
            proof {
                let t = reqs.take(i as int);
                assert(self.requirements@ =~= g0.requirements@.union_prefer_right(seq_to_map(reqs.take(i as int + 1))));
            }
            i += 1;
        }
        proof {
            assert(reqs.take(reqs.len() as int) =~= reqs);
        }
        let mut i: usize = 0;
        let ghost places = placements_of(caps, instance_id);
        while i < definition.capabilities.len()
            invariant
                self.wf(),
                caps == definition.capabilities@,
                places == placements_of(caps, instance_id),
                i <= caps.len(),
                forall|q: int| 0 <= q < caps.len() ==> !capability_conflict(g0, caps, q),
                keys_unique(places.take(i as int)),
                self.capabilities@ == g0.capabilities@.union_prefer_right(seq_to_map(places.take(i as int))),
                self.requirements@ == g0.requirements@.union_prefer_right(seq_to_map(reqs)),
                self.definitions@ == g0.definitions@,
                self.instances@ == g0.instances@,
                self.same_except_registration(g0),
            decreases caps.len() - i,
        {
            let placement = CapabilityPlacement { capability: definition.capabilities[i], provider_id: instance_id };
            proof {
                assert(!capability_conflict(g0, caps, i as int));
                let t = places.take(i as int);
                assert(places[i as int] == placement);
                assert(places.take(i as int + 1) =~= t.push(placement));
                if seq_has_key(t, placement.spec_key()) {
                    let q = choose|q: int| 0 <= q < t.len() && #[trigger] t[q].spec_key() == placement.spec_key();
                    assert(places[q] == t[q]);
                    assert(caps[q].id == caps[i as int].id);
                }
                lemma_seq_to_map_push(t, placement);
                assert(!self.capabilities@.contains_key(placement.spec_key()));
            }
            self.capabilities.insert(placement);
            proof {
                assert(self.capabilities@ =~= g0.capabilities@.union_prefer_right(seq_to_map(places.take(i as int + 1))));
            }
            i += 1;
        }
        proof {
            assert(reqs.take(reqs.len() as int) =~= reqs);
            assert(places.take(caps.len() as int) =~= places);
        }
        let definition_id = definition.id;
        self.definitions.insert(definition);
        self.instances.insert(ComponentInstance::pending(instance_id, definition_id));
        Ok(())
    }
}

} // verus!
