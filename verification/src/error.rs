//! Matchable failures produced by the Kernel Runtime, its Drivers and the Loader.
use vstd::prelude::*;
use crate::identity::{
    AddonId, CapabilityId, ComponentDefinitionId, ComponentInstanceId, ContextId, EffectId,
    EventTypeId, FacetId, FacetSchemaId, RequirementId, RoomAddress,
};
use crate::system::{FacetValueKind, GraphEntityKind};

verus! {

/// A failure reported by an Event Loop Driver lifecycle operation.
#[derive(Debug, Clone, PartialEq, Eq)]
pub struct DriverError {
    /// Human-readable context owned by the adapter boundary.
    pub message: String,
}

impl DriverError {
    /// Creates a matchable Driver failure with adapter-owned context.
    pub fn new(message: String) -> (r: Self)
        ensures
            r.message@ == message@,
    {
        DriverError { message }
    }

    /// Returns the adapter-provided failure context.
    pub fn message(&self) -> (r: &str)
        ensures
            r@ == self.message@,
    {
        self.message.as_str()
    }
}

/// A violation that prevents an Event from changing the System Graph.
#[derive(Debug, Clone, PartialEq, Eq)]
pub enum KernelError {
    /// The Event attempted to insert an existing Component Definition identity.
    DuplicateComponentDefinition(ComponentDefinitionId),
    /// The Event attempted to insert an existing Component Instance identity.
    DuplicateComponentInstance(ComponentInstanceId),
    /// The Event attempted to insert a Requirement identity already in the graph.
    DuplicateRequirement(RequirementId),
    /// The Event attempted to insert a Capability identity already in the graph.
    DuplicateCapability(CapabilityId),
    /// The Event referenced a Component Instance absent from the graph.
    UnknownComponentInstance(ComponentInstanceId),
    /// The Event attempted to insert an existing Effect identity.
    DuplicateEffect(EffectId),
    /// An Effect was recorded for an Instance without a living Runtime.
    InactiveEffectOwner(ComponentInstanceId),
    /// The Event attempted to insert an existing Context identity.
    DuplicateContext(ContextId),
    /// The Event referenced a Context absent from the graph.
    UnknownContext(ContextId),
    /// The Event attempted to insert an existing Facet Schema identity.
    DuplicateFacetSchema(FacetSchemaId),
    /// The Event referenced a Facet Schema absent from the graph.
    UnknownFacetSchema(FacetSchemaId),
    /// The Event attempted to insert an existing Facet identity.
    DuplicateFacet(FacetId),
    /// A Facet value kind differs from its Schema.
    FacetValueMismatch {
        /// Kind declared by the Schema.
        expected: FacetValueKind,
        /// Kind carried by the Facet.
        actual: FacetValueKind,
    },
    /// A Facet target category differs from its Schema.
    FacetTargetMismatch {
        /// Category declared by the Schema.
        expected: GraphEntityKind,
        /// Category of the Facet target.
        actual: GraphEntityKind,
    },
    /// A Facet target does not exist in the graph.
    UnknownFacetTarget,
    /// An active Binding hook rejected a proposed Binding.
    BindingRejected {
        /// Addon owning the rejecting hook.
        addon: AddonId,
        /// Requirement whose Binding was rejected.
        requirement: RequirementId,
        /// Addon-owned reason.
        reason: String,
    },
    /// An active Binding hook selected a Capability absent from its proposal.
    InvalidBindingSelection {
        /// Addon owning the hook.
        addon: AddonId,
        /// Requirement being resolved.
        requirement: RequirementId,
        /// Capability selected by the hook.
        capability: CapabilityId,
    },
    /// A routing declaration reused an existing logical Room address.
    DuplicateRoomAddress(RoomAddress),
    /// A Definition subscribed twice to the same Room.
    DuplicateSubscription(RoomAddress),
    /// An emission route names a Room the Definition does not declare.
    UndeclaredEmissionRoom(RoomAddress),
    /// A Definition listens twice to the same broadcast Event type.
    DuplicateBroadcastSubscription(EventTypeId),
    /// An emission source has no living Runtime.
    InactiveEventSource(ComponentInstanceId),
    /// The source declares no route for the emitted Event type.
    UndeclaredEmission {
        /// Emitting Component Instance.
        emitter: ComponentInstanceId,
        /// Event type without a declared route.
        event_type: EventTypeId,
    },
    /// No Active Room carries the address.
    UnavailableRoom(RoomAddress),
    /// The Room distribution queue is full.
    RoomQueueFull(RoomAddress),
    /// The Room-local FIFO sequence cannot advance any further.
    RoomSequenceExhausted(RoomAddress),
    /// The configured Driver could not start execution for an activating Instance.
    DriverStart {
        /// Component Instance whose execution failed to start.
        instance_id: ComponentInstanceId,
        /// Failure reported by the configured Driver.
        error: DriverError,
    },
    /// The configured Driver could not stop execution for a deactivating Instance.
    DriverStop {
        /// Component Instance whose execution failed to stop.
        instance_id: ComponentInstanceId,
        /// Failure reported by the configured Driver.
        error: DriverError,
    },
    /// The configured Driver failed while processing a Delivery frontier.
    DriverDelivery {
        /// Recipient of the first Delivery of the frontier.
        recipient: ComponentInstanceId,
        /// Failure reported by the configured Driver.
        error: DriverError,
    },
    /// Every Component Runtime identity has already been handed out.
    RuntimeIdsExhausted,
    /// The Driver reported a different number of observations than Deliveries.
    InvalidDeliveryFrontSize {
        /// Number of Deliveries in the frontier.
        expected: usize,
        /// Number of observations returned.
        actual: usize,
    },
}

} // verus!
