//! Inspectable declarations and living entities of the System Graph.
use vstd::prelude::*;
use crate::identity::{AddonId, CapabilityContractId, CapabilityId, ComponentDefinitionId, ComponentInstanceId, ComponentRuntimeId, ContextId, EffectId, FacetId, FacetSchemaId, RequirementId};
use crate::keyed::Keyed;

verus! {

/// An inspectable need for a Capability, never an authorization.
#[derive(Debug, Clone, Copy, PartialEq, Eq, Structural)]
pub struct Requirement {
    /// Stable identity of this declared Requirement.
    pub id: RequirementId,
    /// Capability Contract that a provider must satisfy.
    pub contract: CapabilityContractId,
}

impl Requirement {
    /// Declares a Requirement that must be bound before its Instance can activate.
    pub fn necessary(id: RequirementId, contract: CapabilityContractId) -> (r: Self)
        ensures
            r.id == id,
            r.contract == contract,
    {
        Requirement { id, contract }
    }

    /// Returns the stable Requirement identity.
    pub fn id(&self) -> (r: RequirementId)
        ensures
            r == self.id,
    {
        self.id
    }

    /// Returns the Capability Contract requested by this Requirement.
    pub fn contract(&self) -> (r: CapabilityContractId)
        ensures
            r == self.contract,
    {
        self.contract
    }
}

impl Keyed for Requirement {
    open spec fn spec_key(&self) -> u64 {
        self.id.0
    }

    fn key(&self) -> (k: u64) {
        self.id.0
    }
}

/// An inspectable offer of one Capability Contract.
///
/// A Capability participates in composition and never represents permission.
#[derive(Debug, Clone, Copy, PartialEq, Eq, Structural)]
pub struct Capability {
    /// Stable identity of this offer.
    pub id: CapabilityId,
    /// Contract implemented by this offer.
    pub contract: CapabilityContractId,
}

impl Capability {
    /// Declares an offer implementing the given Capability Contract.
    pub fn new(id: CapabilityId, contract: CapabilityContractId) -> (r: Self)
        ensures
            r.id == id,
            r.contract == contract,
    {
        Capability { id, contract }
    }

    /// Returns the stable Capability identity.
    pub fn id(&self) -> (r: CapabilityId)
        ensures
            r == self.id,
    {
        self.id
    }

    /// Returns the Capability Contract implemented by this offer.
    pub fn contract(&self) -> (r: CapabilityContractId)
        ensures
            r == self.contract,
    {
        self.contract
    }
}

/// A declared Capability together with the Instance that publishes it.
#[derive(Debug, Clone, Copy, PartialEq, Eq, Structural)]
pub struct CapabilityPlacement {
    /// Inspectable offer contributed by the provider Definition.
    pub capability: Capability,
    /// Living Component Instance that publishes the offer.
    pub provider_id: ComponentInstanceId,
}

impl Keyed for CapabilityPlacement {
    open spec fn spec_key(&self) -> u64 {
        self.capability.id.0
    }

    fn key(&self) -> (k: u64) {
        self.capability.id.0
    }
}

/// An inspectable relation from one Requirement to its provider Instance.
#[derive(Debug, Clone, Copy, PartialEq, Eq, Structural)]
pub struct Binding {
    /// Requirement resolved by this relation.
    pub requirement: RequirementId,
    /// Compatible Capability selected for the Requirement.
    pub capability: CapabilityId,
    /// Component Instance providing the compatible Capability.
    pub provider: ComponentInstanceId,
}

impl Binding {
    /// Creates an explicit resolution relation selected by the Kernel.
    pub fn new(requirement_id: RequirementId, capability_id: CapabilityId, provider_id: ComponentInstanceId) -> (r: Self)
        ensures
            r.requirement == requirement_id,
            r.capability == capability_id,
            r.provider == provider_id,
    {
        Binding { requirement: requirement_id, capability: capability_id, provider: provider_id }
    }

    /// Returns the Requirement resolved by this Binding.
    pub fn requirement_id(&self) -> (r: RequirementId)
        ensures
            r == self.requirement,
    {
        self.requirement
    }

    /// Returns the compatible Capability selected by this Binding.
    pub fn capability_id(&self) -> (r: CapabilityId)
        ensures
            r == self.capability,
    {
        self.capability
    }

    /// Returns the Component Instance selected as provider.
    pub fn provider_id(&self) -> (r: ComponentInstanceId)
        ensures
            r == self.provider,
    {
        self.provider
    }
}

impl Keyed for Binding {
    open spec fn spec_key(&self) -> u64 {
        self.requirement.0
    }

    fn key(&self) -> (k: u64) {
        self.requirement.0
    }
}

/// Stable resolution state of a Component Instance.
#[derive(Debug, Clone, Copy, PartialEq, Eq, Structural)]
pub enum ResolutionState {
    /// At least one necessary Requirement has no Binding.
    Pending,
    /// Every necessary Requirement has a Binding and a Component Runtime lives.
    Active,
}

/// A living occurrence of a Component Definition and its resolution state.
#[derive(Debug, Clone, Copy, PartialEq, Eq, Structural)]
pub struct ComponentInstance {
    /// Stable identity of this occurrence.
    pub id: ComponentInstanceId,
    /// Declaration instantiated by this occurrence.
    pub definition_id: ComponentDefinitionId,
    /// Current stable resolution state.
    pub resolution: ResolutionState,
}

impl ComponentInstance {
    /// The unresolved occurrence inserted by a registration.
    pub open spec fn pending_spec(id: ComponentInstanceId, definition_id: ComponentDefinitionId) -> Self {
        ComponentInstance { id, definition_id, resolution: ResolutionState::Pending }
    }

    /// Creates an unresolved occurrence for insertion into the graph.
    pub fn pending(id: ComponentInstanceId, definition_id: ComponentDefinitionId) -> (r: Self)
        ensures
            r.id == id,
            r.definition_id == definition_id,
            r.resolution == ResolutionState::Pending,
    {
        ComponentInstance { id, definition_id, resolution: ResolutionState::Pending }
    }

    /// Marks this occurrence Active after its Bindings and Runtime exist.
    pub fn activate(&mut self)
        ensures
            *final(self) == (ComponentInstance { resolution: ResolutionState::Active, ..*old(self) }),
    {
        self.resolution = ResolutionState::Active;
    }

    /// Returns this occurrence to Pending after lifecycle cleanup.
    pub fn deactivate(&mut self)
        ensures
            *final(self) == (ComponentInstance { resolution: ResolutionState::Pending, ..*old(self) }),
    {
        self.resolution = ResolutionState::Pending;
    }

    /// Returns the stable Component Instance identity.
    pub fn id(&self) -> (r: ComponentInstanceId)
        ensures
            r == self.id,
    {
        self.id
    }

    /// Returns the Component Definition instantiated by this occurrence.
    pub fn definition_id(&self) -> (r: ComponentDefinitionId)
        ensures
            r == self.definition_id,
    {
        self.definition_id
    }

    /// Returns the current stable resolution state.
    pub fn resolution(&self) -> (r: ResolutionState)
        ensures
            r == self.resolution,
    {
        self.resolution
    }
}

impl Keyed for ComponentInstance {
    open spec fn spec_key(&self) -> u64 {
        self.id.0
    }

    fn key(&self) -> (k: u64) {
        self.id.0
    }
}

/// Entity whose lifecycle owns a Context.
#[derive(Debug, Clone, Copy, PartialEq, Eq, Structural)]
pub enum ContextOwner {
    /// A System Addon owns the structural scope.
    Addon(AddonId),
    /// A living Component Instance owns the structural scope.
    Component(ComponentInstanceId),
}

/// Visibility boundary declared by a Context.
#[derive(Debug, Clone, Copy, PartialEq, Eq, Structural)]
pub enum ContextVisibility {
    /// Only the owning entity can observe scoped contributions.
    Owner,
    /// The owner and nested Contexts can observe scoped contributions.
    Descendants,
    /// Every entity in the same Kernel Runtime can observe scoped contributions.
    Runtime,
}

/// A structural scope for visibility, ownership, and lifecycle.
///
/// A Context contains no dependency lookup or resolution behavior.
#[derive(Debug, Clone, Copy, PartialEq, Eq, Structural)]
pub struct Context {
    /// Stable identity of this structural scope.
    pub id: ContextId,
    /// Entity whose lifecycle governs the scope.
    pub owner: ContextOwner,
    /// Explicit visibility boundary.
    pub visibility: ContextVisibility,
    /// Optional enclosing structural scope.
    pub parent: Option<ContextId>,
}

impl Context {
    /// Creates a root Context with explicit ownership and visibility.
    pub fn new(id: ContextId, owner: ContextOwner, visibility: ContextVisibility) -> (r: Self)
        ensures
            r == (Context { id, owner, visibility, parent: None }),
    {
        Context { id, owner, visibility, parent: None }
    }

    /// Nests this Context under an existing structural scope.
    pub fn within(self, parent: ContextId) -> (r: Self)
        ensures
            r == (Context { parent: Some(parent), ..self }),
    {
        Context { parent: Some(parent), ..self }
    }

    /// Returns the stable Context identity.
    pub fn id(&self) -> (r: ContextId)
        ensures
            r == self.id,
    {
        self.id
    }

    /// Returns the entity governing this Context lifecycle.
    pub fn owner(&self) -> (r: ContextOwner)
        ensures
            r == self.owner,
    {
        self.owner
    }

    /// Returns the explicit visibility boundary.
    pub fn visibility(&self) -> (r: ContextVisibility)
        ensures
            r == self.visibility,
    {
        self.visibility
    }

    /// Returns the enclosing Context, when this scope is nested.
    pub fn parent(&self) -> (r: Option<ContextId>)
        ensures
            r == self.parent,
    {
        self.parent
    }
}

impl Keyed for Context {
    open spec fn spec_key(&self) -> u64 {
        self.id.0
    }

    fn key(&self) -> (k: u64) {
        self.id.0
    }
}

/// A living lifecycle-owned resource held by one Active Component Instance.
#[derive(Debug, Clone, Copy, PartialEq, Eq, Structural)]
pub struct Effect {
    /// Stable identity of this Effect.
    pub id: EffectId,
    /// Component Instance whose lifecycle governs the Effect.
    pub owner: ComponentInstanceId,
}

impl Effect {
    /// Declares one Effect owned by a Component Instance.
    pub fn new(id: EffectId, owner: ComponentInstanceId) -> (r: Self)
        ensures
            r.id == id,
            r.owner == owner,
    {
        Effect { id, owner }
    }

    /// Returns the stable Effect identity.
    pub fn id(&self) -> (r: EffectId)
        ensures
            r == self.id,
    {
        self.id
    }

    /// Returns the Component Instance governing this Effect.
    pub fn owner(&self) -> (r: ComponentInstanceId)
        ensures
            r == self.owner,
    {
        self.owner
    }
}

impl Keyed for Effect {
    open spec fn spec_key(&self) -> u64 {
        self.id.0
    }

    fn key(&self) -> (k: u64) {
        self.id.0
    }
}

/// Data kind accepted by the Facets of one schema.
#[derive(Debug, Clone, Copy, PartialEq, Eq, Structural)]
pub enum FacetValueKind {
    /// A boolean flag.
    Flag,
    /// A signed integer.
    Integer,
    /// An unsigned opaque identifier.
    Identifier,
}

/// Typed data interpreted only by the schema-owning Addon.
#[derive(Debug, Clone, Copy, PartialEq, Eq, Structural)]
pub enum FacetValue {
    /// A boolean flag.
    Flag(bool),
    /// A signed integer.
    Integer(i64),
    /// An unsigned opaque identifier.
    Identifier(u64),
}

impl FacetValue {
    /// The kind of a value, as a specification.
    pub open spec fn spec_kind(&self) -> FacetValueKind {
        match self {
            FacetValue::Flag(_) => FacetValueKind::Flag,
            FacetValue::Integer(_) => FacetValueKind::Integer,
            FacetValue::Identifier(_) => FacetValueKind::Identifier,
        }
    }

    /// Returns the data kind of this value.
    pub fn kind(&self) -> (r: FacetValueKind)
        ensures
            r == self.spec_kind(),
    {
        match self {
            FacetValue::Flag(_) => FacetValueKind::Flag,
            FacetValue::Integer(_) => FacetValueKind::Integer,
            FacetValue::Identifier(_) => FacetValueKind::Identifier,
        }
    }
}

/// Neutral category of a graph entity that a Facet may enrich.
#[derive(Debug, Clone, Copy, PartialEq, Eq, Structural)]
pub enum GraphEntityKind {
    /// A Component Definition.
    ComponentDefinition,
    /// A Component Instance.
    ComponentInstance,
    /// A Requirement.
    Requirement,
    /// A Capability.
    Capability,
    /// A Component Runtime.
    ComponentRuntime,
    /// An Effect.
    Effect,
    /// A Context.
    Context,
}

/// Strongly typed reference to one graph entity enriched by a Facet.
#[derive(Debug, Clone, Copy, PartialEq, Eq, Structural)]
pub enum FacetTarget {
    /// A Component Definition.
    ComponentDefinition(ComponentDefinitionId),
    /// A Component Instance.
    ComponentInstance(ComponentInstanceId),
    /// A Requirement.
    Requirement(RequirementId),
    /// A Capability.
    Capability(CapabilityId),
    /// A Component Runtime.
    ComponentRuntime(ComponentRuntimeId),
    /// An Effect.
    Effect(EffectId),
    /// A Context.
    Context(ContextId),
}

impl FacetTarget {
    /// The category of a target, as a specification.
    pub open spec fn spec_kind(&self) -> GraphEntityKind {
        match self {
            FacetTarget::ComponentDefinition(_) => GraphEntityKind::ComponentDefinition,
            FacetTarget::ComponentInstance(_) => GraphEntityKind::ComponentInstance,
            FacetTarget::Requirement(_) => GraphEntityKind::Requirement,
            FacetTarget::Capability(_) => GraphEntityKind::Capability,
            FacetTarget::ComponentRuntime(_) => GraphEntityKind::ComponentRuntime,
            FacetTarget::Effect(_) => GraphEntityKind::Effect,
            FacetTarget::Context(_) => GraphEntityKind::Context,
        }
    }

    /// Returns the neutral category of the referenced entity.
    pub fn kind(&self) -> (r: GraphEntityKind)
        ensures
            r == self.spec_kind(),
    {
        match self {
            FacetTarget::ComponentDefinition(_) => GraphEntityKind::ComponentDefinition,
            FacetTarget::ComponentInstance(_) => GraphEntityKind::ComponentInstance,
            FacetTarget::Requirement(_) => GraphEntityKind::Requirement,
            FacetTarget::Capability(_) => GraphEntityKind::Capability,
            FacetTarget::ComponentRuntime(_) => GraphEntityKind::ComponentRuntime,
            FacetTarget::Effect(_) => GraphEntityKind::Effect,
            FacetTarget::Context(_) => GraphEntityKind::Context,
        }
    }
}

/// An Addon-owned typed dimension that may enrich eligible graph entities.
#[derive(Debug, Clone, Copy, PartialEq, Eq, Structural)]
pub struct FacetSchema {
    /// Stable identity of this extension contract.
    pub id: FacetSchemaId,
    /// System Addon that owns the schema semantics.
    pub owner: AddonId,
    /// Data kind accepted by Facets of this schema.
    pub value_kind: FacetValueKind,
    /// Neutral graph category eligible for attachment.
    pub target_kind: GraphEntityKind,
}

impl FacetSchema {
    /// Defines one typed dimension without giving its semantics to the Kernel.
    pub fn new(id: FacetSchemaId, owner: AddonId, value_kind: FacetValueKind, target_kind: GraphEntityKind) -> (r: Self)
        ensures
            r == (FacetSchema { id, owner, value_kind, target_kind }),
    {
        FacetSchema { id, owner, value_kind, target_kind }
    }

    /// Returns the stable Facet Schema identity.
    pub fn id(&self) -> (r: FacetSchemaId)
        ensures
            r == self.id,
    {
        self.id
    }

    /// Returns the Addon that owns this schema's semantics.
    pub fn owner(&self) -> (r: AddonId)
        ensures
            r == self.owner,
    {
        self.owner
    }

    /// Returns the Facet data kind accepted by this schema.
    pub fn value_kind(&self) -> (r: FacetValueKind)
        ensures
            r == self.value_kind,
    {
        self.value_kind
    }

    /// Returns the neutral graph category eligible for attachment.
    pub fn target_kind(&self) -> (r: GraphEntityKind)
        ensures
            r == self.target_kind,
    {
        self.target_kind
    }
}

impl Keyed for FacetSchema {
    open spec fn spec_key(&self) -> u64 {
        self.id.0
    }

    fn key(&self) -> (k: u64) {
        self.id.0
    }
}

/// One typed Facet attached to an eligible graph entity inside a Context.
#[derive(Debug, Clone, Copy, PartialEq, Eq, Structural)]
pub struct Facet {
    /// Stable identity of this schema instance.
    pub id: FacetId,
    /// Addon-owned schema governing type and target eligibility.
    pub schema: FacetSchemaId,
    /// Structural scope governing visibility, ownership, and lifecycle.
    pub context: ContextId,
    /// Existing graph entity enriched by this Facet.
    pub target: FacetTarget,
    /// Typed data interpreted only by the schema-owning Addon.
    pub value: FacetValue,
}

impl Facet {
    /// Creates a typed schema instance for validation by the Kernel Runtime.
    pub fn new(id: FacetId, schema: FacetSchemaId, context: ContextId, target: FacetTarget, value: FacetValue) -> (r: Self)
        ensures
            r == (Facet { id, schema, context, target, value }),
    {
        Facet { id, schema, context, target, value }
    }

    /// Returns the stable Facet identity.
    pub fn id(&self) -> (r: FacetId)
        ensures
            r == self.id,
    {
        self.id
    }

    /// Returns the Addon-owned Facet Schema identity.
    pub fn schema(&self) -> (r: FacetSchemaId)
        ensures
            r == self.schema,
    {
        self.schema
    }

    /// Returns the structural Context containing this Facet.
    pub fn context(&self) -> (r: ContextId)
        ensures
            r == self.context,
    {
        self.context
    }

    /// Returns the eligible graph entity enriched by this Facet.
    pub fn target(&self) -> (r: FacetTarget)
        ensures
            r == self.target,
    {
        self.target
    }

    /// Returns typed extension data interpreted by the schema-owning Addon.
    pub fn value(&self) -> (r: &FacetValue)
        ensures
            *r == self.value,
    {
        &self.value
    }
}

impl Keyed for Facet {
    open spec fn spec_key(&self) -> u64 {
        self.id.0
    }

    fn key(&self) -> (k: u64) {
        self.id.0
    }
}

} // verus!
