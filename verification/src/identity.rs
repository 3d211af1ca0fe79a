//! Strongly typed identities used by the System Graph, routing and loading.
use vstd::prelude::*;
verus! {

/// Identifies one declarative Component Definition.
#[derive(Debug, Clone, Copy, PartialEq, Eq, Structural, PartialOrd, Ord, Hash)]
pub struct ComponentDefinitionId(pub u64);

impl ComponentDefinitionId {
    /// Creates an opaque Component Definition identity from a host-provided value.
    pub fn new(value: u64) -> (r: Self)
        ensures
            r.0 == value,
    {
        ComponentDefinitionId(value)
    }
}

/// Identifies one living Component Instance.
#[derive(Debug, Clone, Copy, PartialEq, Eq, Structural, PartialOrd, Ord, Hash)]
pub struct ComponentInstanceId(pub u64);

impl ComponentInstanceId {
    /// Creates an opaque Component Instance identity from a host-provided value.
    pub fn new(value: u64) -> (r: Self)
        ensures
            r.0 == value,
    {
        ComponentInstanceId(value)
    }
}

/// Identifies one Requirement declared by a Component Definition.
#[derive(Debug, Clone, Copy, PartialEq, Eq, Structural, PartialOrd, Ord, Hash)]
pub struct RequirementId(pub u64);

impl RequirementId {
    /// Creates an opaque Requirement identity from a host-provided value.
    pub fn new(value: u64) -> (r: Self)
        ensures
            r.0 == value,
    {
        RequirementId(value)
    }
}

/// Identifies the contract shared by compatible Requirements and Capabilities.
#[derive(Debug, Clone, Copy, PartialEq, Eq, Structural, PartialOrd, Ord, Hash)]
pub struct CapabilityContractId(pub u64);

impl CapabilityContractId {
    /// Creates an opaque Capability Contract identity from a host-provided value.
    pub fn new(value: u64) -> (r: Self)
        ensures
            r.0 == value,
    {
        CapabilityContractId(value)
    }
}

/// Identifies one Capability published in the System Graph.
#[derive(Debug, Clone, Copy, PartialEq, Eq, Structural, PartialOrd, Ord, Hash)]
pub struct CapabilityId(pub u64);

impl CapabilityId {
    /// Creates an opaque Capability identity from a host-provided value.
    pub fn new(value: u64) -> (r: Self)
        ensures
            r.0 == value,
    {
        CapabilityId(value)
    }
}

/// Identifies one concrete Component Runtime lifecycle.
#[derive(Debug, Clone, Copy, PartialEq, Eq, Structural, PartialOrd, Ord, Hash)]
pub struct ComponentRuntimeId(pub u64);

impl ComponentRuntimeId {
    /// Creates an opaque Component Runtime identity from a Runtime-owned value.
    pub fn new(value: u64) -> (r: Self)
        ensures
            r.0 == value,
    {
        ComponentRuntimeId(value)
    }
}

/// Identifies one living Effect owned by a Component Instance.
#[derive(Debug, Clone, Copy, PartialEq, Eq, Structural, PartialOrd, Ord, Hash)]
pub struct EffectId(pub u64);

impl EffectId {
    /// Creates an opaque Effect identity from a host-provided value.
    pub fn new(value: u64) -> (r: Self)
        ensures
            r.0 == value,
    {
        EffectId(value)
    }
}

/// Identifies one System Addon.
#[derive(Debug, Clone, Copy, PartialEq, Eq, Structural, PartialOrd, Ord, Hash)]
pub struct AddonId(pub u64);

impl AddonId {
    /// Creates an opaque Addon identity from a host-provided value.
    pub fn new(value: u64) -> (r: Self)
        ensures
            r.0 == value,
    {
        AddonId(value)
    }
}

/// Identifies one structural Context.
#[derive(Debug, Clone, Copy, PartialEq, Eq, Structural, PartialOrd, Ord, Hash)]
pub struct ContextId(pub u64);

impl ContextId {
    /// Creates an opaque Context identity from a host-provided value.
    pub fn new(value: u64) -> (r: Self)
        ensures
            r.0 == value,
    {
        ContextId(value)
    }
}

/// Identifies one Addon-owned Facet Schema.
#[derive(Debug, Clone, Copy, PartialEq, Eq, Structural, PartialOrd, Ord, Hash)]
pub struct FacetSchemaId(pub u64);

impl FacetSchemaId {
    /// Creates an opaque Facet Schema identity from a host-provided value.
    pub fn new(value: u64) -> (r: Self)
        ensures
            r.0 == value,
    {
        FacetSchemaId(value)
    }
}

/// Identifies one typed Facet attachment.
#[derive(Debug, Clone, Copy, PartialEq, Eq, Structural, PartialOrd, Ord, Hash)]
pub struct FacetId(pub u64);

impl FacetId {
    /// Creates an opaque Facet identity from a host-provided value.
    pub fn new(value: u64) -> (r: Self)
        ensures
            r.0 == value,
    {
        FacetId(value)
    }
}

/// Identifies one Event independently of its routing operation.
#[derive(Debug, Clone, Copy, PartialEq, Eq, Structural, PartialOrd, Ord, Hash)]
pub struct EventId(pub u64);

impl EventId {
    /// Creates an opaque Event identity from a Component-provided value.
    pub fn new(value: u64) -> (r: Self)
        ensures
            r.0 == value,
    {
        EventId(value)
    }
}

/// Identifies the declared type contract carried by an Event.
#[derive(Debug, Clone, Copy, PartialEq, Eq, Structural, PartialOrd, Ord, Hash)]
pub struct EventTypeId(pub u64);

impl EventTypeId {
    /// Creates an opaque Event type identity from a contract-provided value.
    pub fn new(value: u64) -> (r: Self)
        ensures
            r.0 == value,
    {
        EventTypeId(value)
    }
}

/// Stable logical address of a Room across concrete Runtime lifecycles.
#[derive(Debug, Clone, Copy, PartialEq, Eq, Structural, PartialOrd, Ord, Hash)]
pub struct RoomAddress(pub u64);

impl RoomAddress {
    /// Creates a stable logical Room address from a declaration value.
    pub fn new(value: u64) -> (r: Self)
        ensures
            r.0 == value,
    {
        RoomAddress(value)
    }
}

/// Identifies one independent Loader lifecycle.
#[derive(Debug, Clone, Copy, PartialEq, Eq, Structural, PartialOrd, Ord, Hash)]
pub struct LoadId(pub u64);

impl LoadId {
    /// Creates an opaque Loader lifecycle identity.
    pub fn new(value: u64) -> (r: Self)
        ensures
            r.0 == value,
    {
        LoadId(value)
    }
}

/// Deterministic total-order position of one active hook; lower values run first.
#[derive(Debug, Clone, Copy, PartialEq, Eq, Structural, PartialOrd, Ord, Hash)]
pub struct HookOrder(pub u32);

impl HookOrder {
    /// Creates an explicit hook order value; lower values run first.
    pub fn new(value: u32) -> (r: Self)
        ensures
            r.0 == value,
    {
        HookOrder(value)
    }
}

/// Identifies one concrete Room attached to one Component Runtime.
#[derive(Debug, Clone, Copy, PartialEq, Eq, Structural, PartialOrd, Ord, Hash)]
pub struct RoomRuntimeId {
    /// Concrete Component Runtime that owns this Room lifecycle.
    pub runtime: ComponentRuntimeId,
    /// Declaration position unique within the owning Component Definition.
    pub ordinal: usize,
}

impl RoomRuntimeId {
    /// Creates one lifecycle-local Room identity during activation.
    pub fn new(runtime: ComponentRuntimeId, ordinal: usize) -> (r: Self)
        ensures
            r.runtime == runtime,
            r.ordinal == ordinal,
    {
        RoomRuntimeId { runtime, ordinal }
    }

    /// Returns the concrete Component Runtime that owns this Room.
    pub fn runtime(self) -> (r: ComponentRuntimeId)
        ensures
            r == self.runtime,
    {
        self.runtime
    }

    /// Returns the declaration position within the owning Definition.
    pub fn ordinal(self) -> (r: usize)
        ensures
            r == self.ordinal,
    {
        self.ordinal
    }
}

/// Monotonic FIFO acceptance position local to one concrete Room.
#[derive(Debug, Clone, Copy, PartialEq, Eq, Structural, PartialOrd, Ord, Hash)]
pub struct RoomSequence(pub u64);

impl RoomSequence {
    /// Creates a Room-local sequence after successful acceptance.
    pub fn new(value: u64) -> (r: Self)
        ensures
            r.0 == value,
    {
        RoomSequence(value)
    }

    /// Returns the Room-local FIFO position.
    pub fn value(self) -> (r: u64)
        ensures
            r == self.0,
    {
        self.0
    }
}

} // verus!
