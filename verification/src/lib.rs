//! Runtime primitives for the Meta-System Kernel.
//!
//! Callers submit typed Events to a [`KernelRuntime`] and observe the resulting
//! System Graph; Components are brought in through the ordered [`Loader`].
use vstd::prelude::*;

pub mod keyed;
pub mod identity;
pub mod system;
pub mod declaration;
pub mod error;
pub mod mailbox;
pub mod search;
pub mod graph;
pub mod facet_lifecycle;
pub mod execution;
pub mod resolution;
pub mod routing;
pub mod delivery;
pub mod distribution;
pub mod removal;
pub mod runtime;
pub mod loader;
pub mod native;
pub mod consistency;
pub mod laws;

pub use declaration::{
    BroadcastSubscription, ComponentDefinition, EmissionDeclaration, Event, MailboxOverflowStrategy, MailboxPolicy,
    QueueCapacity, RoomDeclaration, RoutingContract, SubscriptionDeclaration,
};
pub use error::{DriverError, KernelError};
pub use execution::{DriverProgress, EventLoopDriver, ExecutionFront, ExecutionPlan, ExecutionWork, RuntimeStart, SequentialExecutor};
pub use identity::{
    AddonId, CapabilityContractId, CapabilityId, ComponentDefinitionId, ComponentInstanceId, ComponentRuntimeId, ContextId,
    EffectId, EventId, EventTypeId, FacetId, FacetSchemaId, HookOrder, LoadId, RequirementId, RoomAddress, RoomRuntimeId,
    RoomSequence,
};
pub use loader::{
    ComponentMaterializer, ComponentSource, DeterministicMaterializer, LoadPhase, LoadRecord, LoadRejection, LoadRequest,
    LoadTransition, Loader, LoaderDecision, LoaderError, LoaderEvent, LoaderHook, LoaderOutcome, LoaderProposal,
    MaterializerError,
};
pub use mailbox::{
    BroadcastReceipt, ComponentRuntime, Delivery, DeliveryOrigin, DeliveryProgress, DeliveryReceipt, DeliveryState, Mailbox,
    MailboxPlacement, Room, SendReceipt, Subscription,
};
pub use resolution::{BindingCandidate, BindingDecision, BindingHook, BindingProposal, evaluate_binding_hooks};
pub use runtime::{KernelEvent, KernelRuntime, LifecycleTransition, SystemGraph, TransitionOutcome};
pub use system::{
    Binding, Capability, ComponentInstance, Context, ContextOwner, ContextVisibility, Effect, Facet, FacetSchema,
    FacetTarget, FacetValue, FacetValueKind, GraphEntityKind, Requirement, ResolutionState,
};
