//! Ordered Loader lifecycle, Addon admission policy, and the materializer adapter seam.
//!
//! ```text
//! Declared → Located → Materialized → Inspected → Admitted ─→ Registered → Ready
//!                                          └────→ Rejected
//! ```
use vstd::prelude::*;
use crate::declaration::{ComponentDefinition, DefinitionView};
use crate::error::KernelError;
use crate::execution::EventLoopDriver;
use crate::identity::{AddonId, ComponentInstanceId, HookOrder, LoadId};
use crate::keyed::{Keyed, KeyedVec};
use crate::graph::GraphState;
use crate::runtime::{KernelEvent, KernelRuntime, TransitionOutcome, registration_handled};

verus! {

/// Ordered observable phase of one Loader lifecycle.
#[derive(Debug, Clone, Copy, PartialEq, Eq, Structural)]
pub enum LoadPhase {
    /// A typed load request exists.
    Declared,
    /// The adapter resolved the source location.
    Located,
    /// Executable support was materialized.
    Materialized,
    /// One complete Component Definition was inspected.
    Inspected,
    /// Loading policy admitted the complete Definition.
    Admitted,
    /// Loading policy rejected the complete Definition.
    Rejected,
    /// The Kernel Runtime accepted Component registration.
    Registered,
    /// The complete load lifecycle finished successfully.
    Ready,
}

/// The phases a lifecycle may move between in one accepted Event.
pub open spec fn allowed_step(previous: LoadPhase, current: LoadPhase) -> bool {
    match previous {
        LoadPhase::Declared => current == LoadPhase::Located,
        LoadPhase::Located => current == LoadPhase::Materialized,
        LoadPhase::Materialized => current == LoadPhase::Inspected,
        LoadPhase::Inspected => current == LoadPhase::Admitted || current == LoadPhase::Rejected,
        LoadPhase::Admitted => current == LoadPhase::Registered,
        LoadPhase::Registered => current == LoadPhase::Ready,
        LoadPhase::Rejected => false,
        LoadPhase::Ready => false,
    }
}

/// Position of a phase along the lifecycle.
pub open spec fn phase_rank(p: LoadPhase) -> int {
    match p {
        LoadPhase::Declared => 0,
        LoadPhase::Located => 1,
        LoadPhase::Materialized => 2,
        LoadPhase::Inspected => 3,
        LoadPhase::Admitted => 4,
        LoadPhase::Rejected => 4,
        LoadPhase::Registered => 5,
        LoadPhase::Ready => 6,
    }
}

/// Opaque source declaration interpreted only by a materializer adapter.
#[derive(Debug, Clone, PartialEq, Eq)]
pub struct ComponentSource(pub String);

impl ComponentSource {
    /// Creates an opaque source declaration without granting a Capability.
    pub fn new(value: String) -> (r: Self)
        ensures
            r.0@ == value@,
    {
        ComponentSource(value)
    }

    /// Returns the adapter-owned source text.
    pub fn as_str(&self) -> (r: &str)
        ensures
            r@ == self.0@,
    {
        self.0.as_str()
    }
}

/// Complete declaration required to start one Loader lifecycle.
#[derive(Debug, Clone, PartialEq, Eq)]
pub struct LoadRequest {
    /// Stable lifecycle identity.
    pub id: LoadId,
    /// Opaque source interpreted by the materializer.
    pub source: ComponentSource,
    /// Component Instance identity reserved for Kernel registration.
    pub instance: ComponentInstanceId,
}

impl LoadRequest {
    /// Creates one complete load declaration.
    pub fn new(id: LoadId, source: ComponentSource, instance: ComponentInstanceId) -> (r: Self)
        ensures
            r.id == id,
            r.source == source,
            r.instance == instance,
    {
        LoadRequest { id, source, instance }
    }

    /// Returns the stable Loader lifecycle identity.
    pub fn id(&self) -> (r: LoadId)
        ensures
            r == self.id,
    {
        self.id
    }

    /// Returns the opaque component source.
    pub fn source(&self) -> (r: &ComponentSource)
        ensures
            *r == self.source,
    {
        &self.source
    }

    /// Returns the Component Instance reserved for registration.
    pub fn instance(&self) -> (r: ComponentInstanceId)
        ensures
            r == self.instance,
    {
        self.instance
    }
}

/// Typed stimulus that advances exactly one Loader transition.
#[derive(Debug)]
pub enum LoaderEvent {
    /// Starts a lifecycle in `Declared`.
    Declare(LoadRequest),
    /// Advances `Declared` to `Located`.
    Locate(LoadId),
    /// Advances `Located` to `Materialized`.
    Materialize(LoadId),
    /// Advances `Materialized` to `Inspected` with one complete Definition.
    Inspect(LoadId),
    /// Advances `Inspected` to `Admitted`, unless an active hook rejects.
    Admit(LoadId),
    /// Advances `Inspected` to terminal `Rejected` with a reason.
    Reject {
        /// Loader lifecycle being rejected.
        id: LoadId,
        /// Inspectable rejection reason.
        reason: String,
    },
    /// Registers the inspected Definition with the Kernel Runtime.
    Register(LoadId),
    /// Marks a successfully registered lifecycle `Ready`.
    MarkReady(LoadId),
}

/// One completed Loader phase transition.
#[derive(Debug, Clone, Copy, PartialEq, Eq, Structural)]
pub struct LoadTransition {
    /// Loader lifecycle that changed.
    pub id: LoadId,
    /// Prior phase, absent for declaration.
    pub previous: Option<LoadPhase>,
    /// Phase reached by the Event.
    pub current: LoadPhase,
}

impl LoadTransition {
    /// Describes one completed Loader transition.
    pub fn new(id: LoadId, previous: Option<LoadPhase>, current: LoadPhase) -> (r: Self)
        ensures
            r == (LoadTransition { id, previous, current }),
    {
        LoadTransition { id, previous, current }
    }

    /// Returns the Loader lifecycle that changed.
    pub fn id(self) -> (r: LoadId)
        ensures
            r == self.id,
    {
        self.id
    }

    /// Returns the prior phase, absent for declaration.
    pub fn previous(self) -> (r: Option<LoadPhase>)
        ensures
            r == self.previous,
    {
        self.previous
    }

    /// Returns the phase reached by the Event.
    pub fn current(self) -> (r: LoadPhase)
        ensures
            r == self.current,
    {
        self.current
    }
}

/// Observable result of one accepted Loader Event.
#[derive(Debug, Clone, Copy, PartialEq, Eq, Structural)]
pub struct LoaderOutcome {
    /// Sole transition completed by one Loader Event.
    pub transition: Option<LoadTransition>,
}

impl LoaderOutcome {
    /// Creates an outcome containing one completed phase transition.
    pub fn transitioned(transition: LoadTransition) -> (r: Self)
        ensures
            r.transition == Some(transition),
    {
        LoaderOutcome { transition: Some(transition) }
    }

    /// Returns the completed transition, when the Event changed state.
    pub fn transition(&self) -> (r: Option<LoadTransition>)
        ensures
            r == self.transition,
    {
        self.transition
    }
}

/// Failure reported by a component materializer adapter.
#[derive(Debug, Clone, PartialEq, Eq)]
pub struct MaterializerError {
    /// Adapter-owned diagnostic context.
    pub message: String,
}

impl MaterializerError {
    /// Creates an adapter-owned materialization failure.
    pub fn new(message: String) -> (r: Self)
        ensures
            r.message@ == message@,
    {
        MaterializerError { message }
    }

    /// Returns the adapter-owned diagnostic context.
    pub fn message(&self) -> (r: &str)
        ensures
            r@ == self.message@,
    {
        self.message.as_str()
    }
}

/// Failure that prevents one Loader Event transition.
#[derive(Debug, Clone, PartialEq, Eq)]
pub enum LoaderError {
    /// A declaration reused an existing lifecycle identity.
    DuplicateLoad(LoadId),
    /// An Event referenced an unknown Loader lifecycle.
    UnknownLoad(LoadId),
    /// An Event attempted to bypass or reorder required Loader phases.
    InvalidTransition {
        /// Phase required by the typed Event.
        expected: LoadPhase,
        /// Phase currently observed in the Loader.
        actual: LoadPhase,
    },
    /// The configured materializer adapter rejected a bootstrap operation.
    Materializer {
        /// Phase that could not complete.
        phase: LoadPhase,
        /// Adapter-owned failure.
        error: MaterializerError,
    },
    /// Registration was requested without the Definition promised by inspection.
    MissingInspectedDefinition(LoadId),
    /// Kernel Runtime registration rejected the complete Component Definition.
    Kernel(KernelError),
}

/// Reason and optional Addon owner of one rejected Loader lifecycle.
#[derive(Debug, Clone, PartialEq, Eq)]
pub struct LoadRejection {
    /// Active Loader Addon that rejected admission, absent for host Events.
    pub addon: Option<AddonId>,
    /// Human-readable policy or host reason.
    pub reason: String,
}

impl LoadRejection {
    /// Creates the complete rejection observation stored by the Loader.
    pub fn new(addon: Option<AddonId>, reason: String) -> (r: Self)
        ensures
            r.addon == addon,
            r.reason@ == reason@,
    {
        LoadRejection { addon, reason }
    }

    /// Returns the active Loader Addon that rejected admission, when any.
    pub fn addon(&self) -> (r: Option<AddonId>)
        ensures
            r == self.addon,
    {
        self.addon
    }

    /// Returns the inspectable Addon- or host-owned rejection reason.
    pub fn reason(&self) -> (r: &str)
        ensures
            r@ == self.reason@,
    {
        self.reason.as_str()
    }
}

/// Inspectable state of one Loader lifecycle.
#[derive(Debug)]
pub struct LoadRecord {
    /// Stable Loader lifecycle identity.
    pub id: LoadId,
    /// Source interpreted only by the configured materializer.
    pub source: ComponentSource,
    /// Component Instance identity reserved for Kernel registration.
    pub instance: ComponentInstanceId,
    /// Current ordered Loader phase.
    pub phase: LoadPhase,
    /// Complete inspected Definition, absent before `Inspected`.
    pub definition: Option<ComponentDefinition>,
    /// Inspectable rejection when the lifecycle ends Rejected.
    pub rejection: Option<LoadRejection>,
}

impl Keyed for LoadRecord {
    open spec fn spec_key(&self) -> u64 {
        self.id.0
    }

    fn key(&self) -> (k: u64) {
        self.id.0
    }
}

impl LoadRecord {
    /// Creates the initial inspectable `Declared` state.
    pub fn declared(request: &LoadRequest) -> (r: Self)
        ensures
            r == (LoadRecord {
                id: request.id,
                source: r.source,
                instance: request.instance,
                phase: LoadPhase::Declared,
                definition: None,
                rejection: None,
            }),
            r.source.0@ == request.source.0@,
    {
        LoadRecord {
            id: request.id,
            source: ComponentSource(request.source.0.clone()),
            instance: request.instance,
            phase: LoadPhase::Declared,
            definition: None,
            rejection: None,
        }
    }

    /// Validates the phase required before an Event may perform side effects.
    pub fn require(&self, expected: LoadPhase) -> (r: Result<(), LoaderError>)
        ensures
            self.phase == expected ==> r is Ok,
            self.phase != expected ==> r == Err::<(), LoaderError>(LoaderError::InvalidTransition { expected, actual: self.phase }),
    {
        if self.phase == expected {
            Ok(())
        } else {
            Err(LoaderError::InvalidTransition { expected, actual: self.phase })
        }
    }

    /// Advances to one validated next phase and returns its observation.
    pub fn advance(&mut self, next: LoadPhase) -> (r: LoadTransition)
        ensures
            *final(self) == (LoadRecord { phase: next, ..*old(self) }),
            r == (LoadTransition { id: old(self).id, previous: Some(old(self).phase), current: next }),
    {
        let previous = self.phase;
        self.phase = next;
        LoadTransition::new(self.id, Some(previous), next)
    }

    /// Stores the sole complete Definition produced by inspection.
    pub fn set_definition(&mut self, definition: ComponentDefinition)
        ensures
            *final(self) == (LoadRecord { definition: Some(definition), ..*old(self) }),
    {
        self.definition = Some(definition);
    }

    /// Stores an inspectable rejection.
    pub fn set_rejection(&mut self, rejection: LoadRejection)
        ensures
            *final(self) == (LoadRecord { rejection: Some(rejection), ..*old(self) }),
    {
        self.rejection = Some(rejection);
    }

    /// Returns the stable Loader lifecycle identity.
    pub fn id(&self) -> (r: LoadId)
        ensures
            r == self.id,
    {
        self.id
    }

    /// Returns the materializer-owned source declaration.
    pub fn source(&self) -> (r: &ComponentSource)
        ensures
            *r == self.source,
    {
        &self.source
    }

    /// Returns the Component Instance reserved for registration.
    pub fn instance(&self) -> (r: ComponentInstanceId)
        ensures
            r == self.instance,
    {
        self.instance
    }

    /// Returns the current ordered Loader phase.
    pub fn phase(&self) -> (r: LoadPhase)
        ensures
            r == self.phase,
    {
        self.phase
    }

    /// Returns the sole complete Component Definition after inspection.
    pub fn definition(&self) -> (r: Option<&ComponentDefinition>)
        ensures
            r is Some <==> self.definition is Some,
            r matches Some(d) ==> *d == self.definition->0,
    {
        match &self.definition {
            Some(d) => Some(d),
            None => None,
        }
    }

    /// Returns the inspectable rejection, when rejected.
    pub fn rejection(&self) -> (r: Option<&LoadRejection>)
        ensures
            r is Some <==> self.rejection is Some,
            r matches Some(x) ==> *x == self.rejection->0,
    {
        match &self.rejection {
            Some(x) => Some(x),
            None => None,
        }
    }
}

/// Bootstrap adapter kept separate from Component Capabilities.
///
/// Implementations belong to the integrator; the Loader states what holds of
/// every result they return.
pub trait ComponentMaterializer: Sized {
    /// How this adapter answers `locate`: its state before (`self`) and after,
    /// the lifecycle and source text it was handed, and its answer. An adapter
    /// may define it; the Loader relies on nothing more than the relation
    /// holding, and the default states nothing.
    open spec fn locates(&self, after: &Self, id: LoadId, source: Seq<char>, r: Result<(), MaterializerError>) -> bool {
        true
    }

    /// How this adapter answers `materialize`; the default states nothing.
    open spec fn materializes(&self, after: &Self, id: LoadId, r: Result<(), MaterializerError>) -> bool {
        true
    }

    /// How this adapter answers `inspect`; the default states nothing.
    open spec fn inspects(&self, after: &Self, id: LoadId, r: Result<ComponentDefinition, MaterializerError>) -> bool {
        true
    }

    /// Resolves one opaque Component source.
    fn locate(&mut self, id: LoadId, source: &ComponentSource) -> (r: Result<(), MaterializerError>)
        ensures
            old(self).locates(&*final(self), id, source.0@, r),
    ;

    /// Materializes executable support for a located source.
    fn materialize(&mut self, id: LoadId) -> (r: Result<(), MaterializerError>)
        ensures
            old(self).materializes(&*final(self), id, r),
    ;

    /// Inspects and returns one complete Component Definition.
    fn inspect(&mut self, id: LoadId) -> (r: Result<ComponentDefinition, MaterializerError>)
        ensures
            old(self).inspects(&*final(self), id, r),
    ;
}

/// Materializer adapter that always yields one preconfigured complete Definition.
#[derive(Debug)]
pub struct DeterministicMaterializer {
    /// Complete Definition returned after ordered adapter calls.
    definition: ComponentDefinition,
}

impl DeterministicMaterializer {
    /// The Definition every inspection yields.
    pub closed spec fn yields(&self) -> DefinitionView {
        self.definition@
    }

    /// Creates an adapter that deterministically yields one complete Definition.
    pub fn new(definition: ComponentDefinition) -> (r: Self)
        ensures
            r.yields() == definition@,
    {
        DeterministicMaterializer { definition }
    }
}

impl ComponentMaterializer for DeterministicMaterializer {
    /// Locating always succeeds and keeps the Definition.
    open spec fn locates(&self, after: &Self, id: LoadId, source: Seq<char>, r: Result<(), MaterializerError>) -> bool {
        r is Ok && after.yields() == self.yields()
    }

    /// Materializing always succeeds and keeps the Definition.
    open spec fn materializes(&self, after: &Self, id: LoadId, r: Result<(), MaterializerError>) -> bool {
        r is Ok && after.yields() == self.yields()
    }

    /// Inspection always yields the configured Definition.
    open spec fn inspects(&self, after: &Self, id: LoadId, r: Result<ComponentDefinition, MaterializerError>) -> bool {
        (r matches Ok(d) && d@ == self.yields()) && after.yields() == self.yields()
    }

    fn locate(&mut self, id: LoadId, source: &ComponentSource) -> (r: Result<(), MaterializerError>)
        ensures
            r is Ok,
            final(self).yields() == old(self).yields(),
    {
        Ok(())
    }

    fn materialize(&mut self, id: LoadId) -> (r: Result<(), MaterializerError>)
        ensures
            r is Ok,
            final(self).yields() == old(self).yields(),
    {
        Ok(())
    }

    fn inspect(&mut self, id: LoadId) -> (r: Result<ComponentDefinition, MaterializerError>)
        ensures
            r matches Ok(d) && d@ == old(self).yields(),
            final(self).yields() == old(self).yields(),
    {
        Ok(self.definition.clone())
    }
}

/// Complete inspected load proposed for admission to the Kernel Runtime.
#[derive(Debug, Clone, Copy)]
pub struct LoaderProposal<'definition> {
    /// Loader lifecycle being admitted.
    pub load: LoadId,
    /// Sole complete Definition obtained during inspection.
    pub definition: &'definition ComponentDefinition,
}

impl<'definition> LoaderProposal<'definition> {
    /// Creates the immutable proposal observed by every active hook.
    pub fn new(load: LoadId, definition: &'definition ComponentDefinition) -> (r: Self)
        ensures
            r.load == load,
            *r.definition == *definition,
    {
        LoaderProposal { load, definition }
    }

    /// Returns the Loader lifecycle under policy evaluation.
    pub fn load(self) -> (r: LoadId)
        ensures
            r == self.load,
    {
        self.load
    }

    /// Returns the complete inspected Component Definition.
    pub fn definition(self) -> (r: &'definition ComponentDefinition)
        ensures
            *r == *self.definition,
    {
        self.definition
    }
}

/// Admission decision returned by one active Loader Addon.
#[derive(Debug, Clone, PartialEq, Eq)]
pub enum LoaderDecision {
    /// Allows the complete Definition to continue toward admission.
    Allow,
    /// Rejects the load with an inspectable Addon-owned reason.
    Reject(String),
}

/// Active Loader Addon hook participating in deterministic admission policy.
///
/// Implementations belong to the Addons; the Loader states what holds of every
/// decision they return.
pub trait LoaderHook {
    /// How this hook answers `addon`; the default states nothing.
    open spec fn owned_by(&self, addon: AddonId) -> bool {
        true
    }

    /// How this hook answers `evaluate` on lifecycle `load` with Definition
    /// `definition`. A hook may define it; the Loader relies on nothing more than
    /// the relation holding, and the default states nothing.
    open spec fn decides(&self, load: LoadId, definition: ComponentDefinition, decision: LoaderDecision) -> bool {
        true
    }

    /// Returns the Addon that owns this policy decision.
    fn addon(&self) -> (r: AddonId)
        ensures
            self.owned_by(r),
    ;

    /// Returns this hook's declared deterministic order.
    fn order(&self) -> HookOrder;

    /// Observes and optionally rejects one complete inspected Definition.
    fn evaluate(&self, proposal: LoaderProposal<'_>) -> (r: LoaderDecision)
        ensures
            self.decides(proposal.load, *proposal.definition, r),
    ;
}

/// The first `outs.len()` hooks were consulted in order on lifecycle `id` and
/// Definition `d`, answering `outs`; all allowed but possibly the last, which
/// rejected with the reason of `r`, whose Addon that hook named. Without a
/// rejection every hook was consulted and allowed.
pub open spec fn loader_hooks_answered(
    hooks: Seq<Box<dyn LoaderHook>>,
    id: LoadId,
    d: ComponentDefinition,
    outs: Seq<LoaderDecision>,
    r: Option<(AddonId, String)>,
) -> bool {
    &&& outs.len() <= hooks.len()
    &&& forall|i: int| 0 <= i < outs.len() ==> (#[trigger] hooks[i]).decides(id, d, outs[i])
    &&& forall|i: int| 0 <= i < outs.len() - 1 ==> (#[trigger] outs[i]) is Allow
    &&& match r {
        None => outs.len() == hooks.len() && forall|i: int| 0 <= i < outs.len() ==> (#[trigger] outs[i]) is Allow,
        Some(rej) => outs.len() > 0 && outs.last() == LoaderDecision::Reject(rej.1) && hooks[outs.len() - 1].owned_by(rej.0),
    }
}

/// The reason an Event cannot act on lifecycle `id`, which it needs in phase `expected`.
pub open spec fn phase_error(loads: Map<u64, LoadRecord>, id: LoadId, expected: LoadPhase) -> Option<LoaderError> {
    if !loads.contains_key(id.0) {
        Some(LoaderError::UnknownLoad(id))
    } else if loads[id.0].phase != expected {
        Some(LoaderError::InvalidTransition { expected, actual: loads[id.0].phase })
    } else {
        None
    }
}

/// The Event moved lifecycle `id` from `previous` to `current` and reported it.
pub open spec fn reports(r: Result<LoaderOutcome, LoaderError>, id: LoadId, previous: LoadPhase, current: LoadPhase) -> bool {
    r matches Ok(o) && o.transition == Some(LoadTransition { id, previous: Some(previous), current })
}

/// Lifecycle `id` moved to `next` and nothing else changed.
pub open spec fn advanced(old: Map<u64, LoadRecord>, new: Map<u64, LoadRecord>, id: LoadId, next: LoadPhase) -> bool {
    new == old.insert(id.0, LoadRecord { phase: next, ..old[id.0] })
}

/// The outcome of a step whose adapter call decides between `next` and a materializer failure.
pub open spec fn adapter_step(
    old: Map<u64, LoadRecord>,
    new: Map<u64, LoadRecord>,
    id: LoadId,
    expected: LoadPhase,
    next: LoadPhase,
    r: Result<LoaderOutcome, LoaderError>,
) -> bool {
    match phase_error(old, id, expected) {
        Some(e) => r == Err::<LoaderOutcome, LoaderError>(e) && new == old,
        None => {
            ||| (new == old && exists|e: MaterializerError| r == Err::<LoaderOutcome, LoaderError>(LoaderError::Materializer { phase: next, error: e }))
            ||| (advanced(old, new, id, next) && reports(r, id, expected, next))
        },
    }
}

/// `new` holds a fresh `Declared` record for `request` beside the unchanged records of `old`.
pub open spec fn declared(old: Map<u64, LoadRecord>, new: Map<u64, LoadRecord>, request: LoadRequest) -> bool {
    let rec = new[request.id.0];
    &&& new.dom() == old.dom().insert(request.id.0)
    &&& forall|k: u64| k != request.id.0 && #[trigger] old.contains_key(k) ==> new[k] == old[k]
    &&& rec.id == request.id
    &&& rec.instance == request.instance
    &&& rec.source.0@ == request.source.0@
    &&& rec.phase == LoadPhase::Declared
    &&& rec.definition is None
    &&& rec.rejection is None
}

/// The outcome of declaring `request`.
pub open spec fn declare_step(old: Map<u64, LoadRecord>, new: Map<u64, LoadRecord>, request: LoadRequest, r: Result<LoaderOutcome, LoaderError>) -> bool {
    if old.contains_key(request.id.0) {
        r == Err::<LoaderOutcome, LoaderError>(LoaderError::DuplicateLoad(request.id)) && new == old
    } else {
        declared(old, new, request)
            && r == Ok::<LoaderOutcome, LoaderError>(LoaderOutcome { transition: Some(LoadTransition { id: request.id, previous: None, current: LoadPhase::Declared }) })
    }
}

/// The record after inspection stored Definition `d`.
pub open spec fn inspected_record(rec: LoadRecord, d: ComponentDefinition) -> LoadRecord {
    LoadRecord { phase: LoadPhase::Inspected, definition: Some(d), ..rec }
}

/// The record after a rejection ended its lifecycle.
pub open spec fn rejected_record(rec: LoadRecord, rejection: LoadRejection) -> LoadRecord {
    LoadRecord { phase: LoadPhase::Rejected, rejection: Some(rejection), ..rec }
}

/// The outcome of inspecting lifecycle `id`: the adapter either fails or yields the stored Definition.
pub open spec fn inspect_step(old: Map<u64, LoadRecord>, new: Map<u64, LoadRecord>, id: LoadId, r: Result<LoaderOutcome, LoaderError>) -> bool {
    match phase_error(old, id, LoadPhase::Materialized) {
        Some(e) => r == Err::<LoaderOutcome, LoaderError>(e) && new == old,
        None => {
            ||| (new == old && exists|e: MaterializerError| r == Err::<LoaderOutcome, LoaderError>(LoaderError::Materializer { phase: LoadPhase::Inspected, error: e }))
            ||| (reports(r, id, LoadPhase::Materialized, LoadPhase::Inspected) && exists|d: ComponentDefinition|
                new == old.insert(id.0, #[trigger] inspected_record(old[id.0], d)))
        },
    }
}

/// The outcome of admitting lifecycle `id` through `hooks` active hooks.
pub open spec fn admit_step(old: Map<u64, LoadRecord>, new: Map<u64, LoadRecord>, id: LoadId, hooks: nat, r: Result<LoaderOutcome, LoaderError>) -> bool {
    match phase_error(old, id, LoadPhase::Inspected) {
        Some(e) => r == Err::<LoaderOutcome, LoaderError>(e) && new == old,
        None => {
            ||| (advanced(old, new, id, LoadPhase::Admitted) && reports(r, id, LoadPhase::Inspected, LoadPhase::Admitted))
            ||| (hooks > 0 && reports(r, id, LoadPhase::Inspected, LoadPhase::Rejected) && exists|addon: AddonId, reason: String|
                new == old.insert(id.0, #[trigger] rejected_record(old[id.0], LoadRejection { addon: Some(addon), reason })))
        },
    }
}

/// The outcome of a host rejection of lifecycle `id` for `reason`.
pub open spec fn reject_step(old: Map<u64, LoadRecord>, new: Map<u64, LoadRecord>, id: LoadId, reason: String, r: Result<LoaderOutcome, LoaderError>) -> bool {
    match phase_error(old, id, LoadPhase::Inspected) {
        Some(e) => r == Err::<LoaderOutcome, LoaderError>(e) && new == old,
        None => reports(r, id, LoadPhase::Inspected, LoadPhase::Rejected)
            && new == old.insert(id.0, rejected_record(old[id.0], LoadRejection { addon: None, reason })),
    }
}

/// The outcome of a step that needs no adapter.
pub open spec fn plain_step(
    old: Map<u64, LoadRecord>,
    new: Map<u64, LoadRecord>,
    id: LoadId,
    expected: LoadPhase,
    next: LoadPhase,
    r: Result<LoaderOutcome, LoaderError>,
) -> bool {
    match phase_error(old, id, expected) {
        Some(e) => r == Err::<LoaderOutcome, LoaderError>(e) && new == old,
        None => advanced(old, new, id, next) && reports(r, id, expected, next),
    }
}

/// The outcome of registering lifecycle `id` with a Kernel Runtime whose graph and next Runtime identity go from `rt0`, `n0` to `rt1`, `n1`.
pub open spec fn register_step(
    old: Map<u64, LoadRecord>,
    new: Map<u64, LoadRecord>,
    id: LoadId,
    rt0: GraphState,
    n0: u64,
    rt1: GraphState,
    n1: u64,
    r: Result<LoaderOutcome, LoaderError>,
) -> bool {
    match phase_error(old, id, LoadPhase::Admitted) {
        Some(e) => r == Err::<LoaderOutcome, LoaderError>(e) && new == old && rt1 == rt0 && n1 == n0,
        None => match old[id.0].definition {
            None => r == Err::<LoaderOutcome, LoaderError>(LoaderError::MissingInspectedDefinition(id)) && new == old && rt1 == rt0 && n1 == n0,
            Some(inspected) => exists|d: ComponentDefinition, rk: Result<TransitionOutcome, KernelError>| {
                &&& d@ == inspected@
                &&& #[trigger] registration_handled(rt0, n0, rt1, n1, d, old[id.0].instance, rk)
                &&& match rk {
                    Err(e) => r == Err::<LoaderOutcome, LoaderError>(LoaderError::Kernel(e)) && new == old,
                    Ok(_) => advanced(old, new, id, LoadPhase::Registered) && reports(r, id, LoadPhase::Admitted, LoadPhase::Registered),
                }
            },
        },
    }
}

/// The outcome of locating or materializing lifecycle `id`: the adapter's answer
/// `ans` to exactly that call decides between `next` and its failure.
pub open spec fn adapter_answered(
    old: Map<u64, LoadRecord>,
    new: Map<u64, LoadRecord>,
    id: LoadId,
    expected: LoadPhase,
    next: LoadPhase,
    ans: Result<(), MaterializerError>,
    r: Result<LoaderOutcome, LoaderError>,
) -> bool {
    match ans {
        Err(e) => new == old && r == Err::<LoaderOutcome, LoaderError>(LoaderError::Materializer { phase: next, error: e }),
        Ok(_) => advanced(old, new, id, next) && reports(r, id, expected, next),
    }
}

/// The outcome of one Loader Event other than registration, with the adapter
/// going from `m0` to `m1` and hooks `hooks`: what each adapter call and hook was
/// handed, and how its answer is kept.
pub open spec fn loader_driven<M: ComponentMaterializer>(
    old: Map<u64, LoadRecord>,
    new: Map<u64, LoadRecord>,
    m0: M,
    m1: M,
    hooks: Seq<Box<dyn LoaderHook>>,
    event: LoaderEvent,
    r: Result<LoaderOutcome, LoaderError>,
) -> bool {
    match event {
        LoaderEvent::Locate(id) => match phase_error(old, id, LoadPhase::Declared) {
            Some(e) => r == Err::<LoaderOutcome, LoaderError>(e) && new == old && m1 == m0,
            None => exists|ans: Result<(), MaterializerError>| #[trigger] m0.locates(&m1, id, old[id.0].source.0@, ans)
                && adapter_answered(old, new, id, LoadPhase::Declared, LoadPhase::Located, ans, r),
        },
        LoaderEvent::Materialize(id) => match phase_error(old, id, LoadPhase::Located) {
            Some(e) => r == Err::<LoaderOutcome, LoaderError>(e) && new == old && m1 == m0,
            None => exists|ans: Result<(), MaterializerError>| #[trigger] m0.materializes(&m1, id, ans)
                && adapter_answered(old, new, id, LoadPhase::Located, LoadPhase::Materialized, ans, r),
        },
        LoaderEvent::Inspect(id) => match phase_error(old, id, LoadPhase::Materialized) {
            Some(e) => r == Err::<LoaderOutcome, LoaderError>(e) && new == old && m1 == m0,
            None => exists|ans: Result<ComponentDefinition, MaterializerError>| #[trigger] m0.inspects(&m1, id, ans) && match ans {
                Err(e) => new == old && r == Err::<LoaderOutcome, LoaderError>(LoaderError::Materializer { phase: LoadPhase::Inspected, error: e }),
                Ok(d) => new == old.insert(id.0, inspected_record(old[id.0], d)) && reports(r, id, LoadPhase::Materialized, LoadPhase::Inspected),
            },
        },
        LoaderEvent::Admit(id) => m1 == m0 && match phase_error(old, id, LoadPhase::Inspected) {
            Some(e) => r == Err::<LoaderOutcome, LoaderError>(e) && new == old,
            None => exists|outs: Seq<LoaderDecision>, rej: Option<(AddonId, String)>|
                #[trigger] loader_hooks_answered(hooks, id, old[id.0].definition->0, outs, rej) && match rej {
                    None => advanced(old, new, id, LoadPhase::Admitted) && reports(r, id, LoadPhase::Inspected, LoadPhase::Admitted),
                    Some(x) => new == old.insert(id.0, rejected_record(old[id.0], LoadRejection { addon: Some(x.0), reason: x.1 }))
                        && reports(r, id, LoadPhase::Inspected, LoadPhase::Rejected),
                },
        },
        _ => m1 == m0,
    }
}

/// The outcome of one Loader Event, with `hooks` active hooks and a Kernel Runtime going from `rt0`, `n0` to `rt1`, `n1`.
pub open spec fn loader_handled(
    old: Map<u64, LoadRecord>,
    new: Map<u64, LoadRecord>,
    hooks: nat,
    rt0: GraphState,
    n0: u64,
    rt1: GraphState,
    n1: u64,
    event: LoaderEvent,
    r: Result<LoaderOutcome, LoaderError>,
) -> bool {
    match event {
        LoaderEvent::Register(id) => register_step(old, new, id, rt0, n0, rt1, n1, r),
        _ => rt1 == rt0 && n1 == n0 && match event {
            LoaderEvent::Declare(request) => declare_step(old, new, request, r),
            LoaderEvent::Locate(id) => adapter_step(old, new, id, LoadPhase::Declared, LoadPhase::Located, r),
            LoaderEvent::Materialize(id) => adapter_step(old, new, id, LoadPhase::Located, LoadPhase::Materialized, r),
            LoaderEvent::Inspect(id) => inspect_step(old, new, id, r),
            LoaderEvent::Admit(id) => admit_step(old, new, id, hooks, r),
            LoaderEvent::Reject { id, reason } => reject_step(old, new, id, reason, r),
            LoaderEvent::MarkReady(id) => plain_step(old, new, id, LoadPhase::Registered, LoadPhase::Ready, r),
            LoaderEvent::Register(id) => true,
        },
    }
}

/// Every lifecycle holds a Definition exactly from `Inspected` on, and a
/// rejection exactly when it is `Rejected`.
pub open spec fn records_follow_phases(m: Map<u64, LoadRecord>) -> bool {
    &&& forall|k: u64| #[trigger] m.contains_key(k) ==> (m[k].definition is Some <==> phase_rank(m[k].phase) >= 3)
    &&& forall|k: u64| #[trigger] m.contains_key(k) ==> (m[k].rejection is Some <==> m[k].phase == LoadPhase::Rejected)
}

/// Ordered Loader machine backed by one materializer adapter.
pub struct Loader<Materializer> {
    /// Bootstrap adapter kept outside Component Capabilities.
    materializer: Materializer,
    /// Independent inspectable Loader lifecycles.
    loads: KeyedVec<LoadRecord>,
    /// Active Loader Addon hooks in their declared deterministic order.
    hooks: Vec<Box<dyn LoaderHook>>,
}

impl<Materializer> Loader<Materializer> {
    /// Every Loader lifecycle, by identity.
    pub closed spec fn records(&self) -> Map<u64, LoadRecord> {
        self.loads@
    }

    /// The bootstrap adapter.
    pub closed spec fn materializer(&self) -> Materializer {
        self.materializer
    }

    /// The active Loader hooks, in the order they are consulted.
    pub closed spec fn hooks(&self) -> Seq<Box<dyn LoaderHook>> {
        self.hooks@
    }

    /// Number of active Loader hooks.
    pub closed spec fn hook_count(&self) -> nat {
        self.hooks@.len()
    }

    /// The lifecycle table is ordered, every inspected lifecycle keeps its
    /// Definition, and exactly the Rejected lifecycles carry a rejection.
    pub closed spec fn wf(&self) -> bool {
        &&& self.loads.wf()
        &&& records_follow_phases(self.loads@)
    }

    /// A lifecycle carries a rejection exactly when it is Rejected, and a
    /// Definition exactly from `Inspected` on.
    pub proof fn law_lifecycle_records(&self)
        requires
            self.wf(),
        ensures
            records_follow_phases(self.records()),
    {
    }

    /// Creates an empty Loader using the supplied bootstrap adapter.
    pub fn new(materializer: Materializer) -> (r: Self)
        ensures
            r.wf(),
            r.records() == Map::<u64, LoadRecord>::empty(),
            r.hook_count() == 0,
    {
        Loader { materializer, loads: KeyedVec::new(), hooks: Vec::new() }
    }

    /// Creates an empty Loader whose admissions pass through hooks given lowest order first.
    pub fn with_hooks(materializer: Materializer, hooks: Vec<Box<dyn LoaderHook>>) -> (r: Self)
        ensures
            r.wf(),
            r.records() == Map::<u64, LoadRecord>::empty(),
            r.hook_count() == hooks@.len(),
    {
        Loader { materializer, loads: KeyedVec::new(), hooks }
    }

    /// Finds one inspectable Loader lifecycle by identity.
    pub fn load(&self, id: LoadId) -> (r: Option<&LoadRecord>)
        requires
            self.wf(),
        ensures
            r is Some <==> self.records().contains_key(id.0),
            r matches Some(x) ==> *x == self.records()[id.0],
    {
        self.loads.get(id.0)
    }

    /// Creates the sole initial state for a new lifecycle identity.
    fn declare(&mut self, request: &LoadRequest) -> (r: Result<LoaderOutcome, LoaderError>)
        requires
            old(self).wf(),
        ensures
            final(self).wf(),
            final(self).hook_count() == old(self).hook_count(),
            final(self).hooks() == old(self).hooks(),
            final(self).materializer() == old(self).materializer(),
            declare_step(old(self).records(), final(self).records(), *request, r),
    {
        let id = request.id;
        if self.loads.contains_key(id.0) {
            return Err(LoaderError::DuplicateLoad(id));
        }
        self.loads.insert(LoadRecord::declared(request));
        Ok(LoaderOutcome::transitioned(LoadTransition::new(id, None, LoadPhase::Declared)))
    }

    /// Moves lifecycle `id`, known to be in `expected`, to `next`.
    fn step(&mut self, id: LoadId, expected: LoadPhase, next: LoadPhase) -> (r: LoadTransition)
        requires
            old(self).wf(),
            phase_error(old(self).records(), id, expected) is None,
            phase_rank(next) >= 3 <==> phase_rank(expected) >= 3,
            expected != LoadPhase::Rejected,
            next != LoadPhase::Rejected,
        ensures
            final(self).wf(),
            final(self).hook_count() == old(self).hook_count(),
            final(self).hooks() == old(self).hooks(),
            final(self).materializer() == old(self).materializer(),
            advanced(old(self).records(), final(self).records(), id, next),
            r == (LoadTransition { id, previous: Some(expected), current: next }),
    {
        proof {
            self.loads.lemma_view();
        }
        let ghost m0 = self.loads@;
        let mut record = match self.loads.remove(id.0) {
            Some(record) => record,
            None => {
                proof {
                    assert(false);
                }
                return LoadTransition::new(id, Some(expected), next);
            },
        };
        let t = record.advance(next);
        self.loads.insert(record);
        assert(self.loads@ =~= m0.insert(id.0, LoadRecord { phase: next, ..m0[id.0] }));
        t
    }

    /// Resolves the opaque source before publishing `Located`.
    fn locate(&mut self, id: LoadId) -> (r: Result<LoaderOutcome, LoaderError>)
        where Materializer: ComponentMaterializer
        requires
            old(self).wf(),
        ensures
            final(self).wf(),
            final(self).hook_count() == old(self).hook_count(),
            final(self).hooks() == old(self).hooks(),
            adapter_step(old(self).records(), final(self).records(), id, LoadPhase::Declared, LoadPhase::Located, r),
            loader_driven(old(self).records(), final(self).records(), old(self).materializer(), final(self).materializer(),
                old(self).hooks(), LoaderEvent::Locate(id), r),
    {
        let record = match self.loads.get(id.0) {
            Some(record) => record,
            None => {
                return Err(LoaderError::UnknownLoad(id));
            },
        };
        match record.require(LoadPhase::Declared) {
            Err(e) => {
                return Err(e);
            },
            Ok(()) => {},
        }
        match self.materializer.locate(id, &record.source) {
            Err(error) => {
                return Err(LoaderError::Materializer { phase: LoadPhase::Located, error });
            },
            Ok(()) => {},
        }
        let t = self.step(id, LoadPhase::Declared, LoadPhase::Located);
        Ok(LoaderOutcome::transitioned(t))
    }

    /// Materializes support before publishing `Materialized`.
    fn materialize(&mut self, id: LoadId) -> (r: Result<LoaderOutcome, LoaderError>)
        where Materializer: ComponentMaterializer
        requires
            old(self).wf(),
        ensures
            final(self).wf(),
            final(self).hook_count() == old(self).hook_count(),
            final(self).hooks() == old(self).hooks(),
            adapter_step(old(self).records(), final(self).records(), id, LoadPhase::Located, LoadPhase::Materialized, r),
            loader_driven(old(self).records(), final(self).records(), old(self).materializer(), final(self).materializer(),
                old(self).hooks(), LoaderEvent::Materialize(id), r),
    {
        match self.loads.get(id.0) {
            Some(record) => match record.require(LoadPhase::Located) {
                Err(e) => {
                    return Err(e);
                },
                Ok(()) => {},
            },
            None => {
                return Err(LoaderError::UnknownLoad(id));
            },
        }
        match self.materializer.materialize(id) {
            Err(error) => {
                return Err(LoaderError::Materializer { phase: LoadPhase::Materialized, error });
            },
            Ok(()) => {},
        }
        let t = self.step(id, LoadPhase::Located, LoadPhase::Materialized);
        Ok(LoaderOutcome::transitioned(t))
    }

    /// Stores one complete Definition before publishing `Inspected`.
    fn inspect(&mut self, id: LoadId) -> (r: Result<LoaderOutcome, LoaderError>)
        where Materializer: ComponentMaterializer
        requires
            old(self).wf(),
        ensures
            final(self).wf(),
            final(self).hook_count() == old(self).hook_count(),
            final(self).hooks() == old(self).hooks(),
            inspect_step(old(self).records(), final(self).records(), id, r),
            loader_driven(old(self).records(), final(self).records(), old(self).materializer(), final(self).materializer(),
                old(self).hooks(), LoaderEvent::Inspect(id), r),
    {
        match self.loads.get(id.0) {
            Some(record) => match record.require(LoadPhase::Materialized) {
                Err(e) => {
                    return Err(e);
                },
                Ok(()) => {},
            },
            None => {
                return Err(LoaderError::UnknownLoad(id));
            },
        }
        let definition = match self.materializer.inspect(id) {
            Err(error) => {
                return Err(LoaderError::Materializer { phase: LoadPhase::Inspected, error });
            },
            Ok(definition) => definition,
        };
        proof {
            self.loads.lemma_view();
        }
        let ghost m0 = self.loads@;
        let mut record = match self.loads.remove(id.0) {
            Some(record) => record,
            None => {
                return Err(LoaderError::UnknownLoad(id));
            },
        };
        let ghost d = definition;
        record.set_definition(definition);
        let t = record.advance(LoadPhase::Inspected);
        self.loads.insert(record);
        assert(self.loads@ =~= m0.insert(id.0, inspected_record(m0[id.0], d)));
        Ok(LoaderOutcome::transitioned(t))
    }

    /// The first active hook that rejects the inspected Definition of lifecycle `id`, with its reason.
    fn first_hook_rejection(&self, id: LoadId) -> (r: Option<(AddonId, String)>)
        requires
            self.wf(),
            phase_error(self.records(), id, LoadPhase::Inspected) is None,
        ensures
            r is Some ==> self.hook_count() > 0,
            exists|outs: Seq<LoaderDecision>| #[trigger] loader_hooks_answered(self.hooks(), id, self.records()[id.0].definition->0, outs, r),
    {
        proof {
            self.loads.lemma_view();
        }
        let record = match self.loads.get(id.0) {
            Some(record) => record,
            None => {
                return None;
            },
        };
        let definition = match &record.definition {
            Some(d) => d,
            None => {
                return None;
            },
        };
        let ghost d = self.records()[id.0].definition->0;
        assert(*definition == d);
        let mut i: usize = 0;
        let ghost mut outs: Seq<LoaderDecision> = Seq::empty();
        while i < self.hooks.len()
            invariant
                i <= self.hooks@.len(),
                *definition == d,
                d == self.records()[id.0].definition->0,
                outs.len() == i,
                forall|j: int| 0 <= j < i ==> (#[trigger] self.hooks@[j]).decides(id, d, outs[j]),
                forall|j: int| 0 <= j < i ==> (#[trigger] outs[j]) is Allow,
            decreases self.hooks@.len() - i,
        {
            let hook = &self.hooks[i];
            let decision = hook.evaluate(LoaderProposal::new(id, definition));
            proof {
                outs = outs.push(decision);
            }
            match decision {
                LoaderDecision::Reject(reason) => {
                    let addon = hook.addon();
                    let ghost why = reason;
                    let found = Some((addon, reason));
                    assert(outs.last() == LoaderDecision::Reject(why));
                    assert(loader_hooks_answered(self.hooks(), id, d, outs, found));
                    return found;
                },
                LoaderDecision::Allow => {},
            }
            i += 1;
        }
        assert(loader_hooks_answered(self.hooks(), id, d, outs, None));
        None
    }

    /// Ends an Inspected lifecycle with its rejection.
    fn record_rejection(&mut self, id: LoadId, addon: Option<AddonId>, reason: String) -> (r: LoadTransition)
        requires
            old(self).wf(),
            phase_error(old(self).records(), id, LoadPhase::Inspected) is None,
        ensures
            final(self).wf(),
            final(self).hook_count() == old(self).hook_count(),
            final(self).hooks() == old(self).hooks(),
            final(self).materializer() == old(self).materializer(),
            final(self).records() == old(self).records().insert(id.0,
                rejected_record(old(self).records()[id.0], LoadRejection { addon, reason })),
            r == (LoadTransition { id, previous: Some(LoadPhase::Inspected), current: LoadPhase::Rejected }),
    {
        proof {
            self.loads.lemma_view();
        }
        let ghost m0 = self.loads@;
        let ghost why = reason;
        let mut record = match self.loads.remove(id.0) {
            Some(record) => record,
            None => {
                proof {
                    assert(false);
                }
                return LoadTransition::new(id, Some(LoadPhase::Inspected), LoadPhase::Rejected);
            },
        };
        record.set_rejection(LoadRejection { addon, reason });
        let t = record.advance(LoadPhase::Rejected);
        self.loads.insert(record);
        assert(self.loads@ =~= m0.insert(id.0, rejected_record(m0[id.0], LoadRejection { addon, reason: why })));
        t
    }

    /// Admits the inspected Definition unless an active hook rejects it.
    fn decide_admission(&mut self, id: LoadId) -> (r: Result<LoaderOutcome, LoaderError>)
        where Materializer: ComponentMaterializer
        requires
            old(self).wf(),
        ensures
            final(self).wf(),
            final(self).hook_count() == old(self).hook_count(),
            final(self).hooks() == old(self).hooks(),
            final(self).materializer() == old(self).materializer(),
            admit_step(old(self).records(), final(self).records(), id, old(self).hook_count(), r),
            loader_driven(old(self).records(), final(self).records(), old(self).materializer(), final(self).materializer(),
                old(self).hooks(), LoaderEvent::Admit(id), r),
    {
        match self.loads.get(id.0) {
            Some(record) => match record.require(LoadPhase::Inspected) {
                Err(e) => {
                    return Err(e);
                },
                Ok(()) => {},
            },
            None => {
                return Err(LoaderError::UnknownLoad(id));
            },
        }
        let ghost m0 = self.records();
        let found = self.first_hook_rejection(id);
        let ghost outs = choose|outs: Seq<LoaderDecision>| #[trigger] loader_hooks_answered(self.hooks(), id, m0[id.0].definition->0, outs, found);
        match found {
            Some((addon, reason)) => {
                let t = self.record_rejection(id, Some(addon), reason);
                Ok(LoaderOutcome::transitioned(t))
            },
            None => {
                let t = self.step(id, LoadPhase::Inspected, LoadPhase::Admitted);
                Ok(LoaderOutcome::transitioned(t))
            },
        }
    }

    /// Terminates the lifecycle with an inspectable host rejection reason.
    fn reject(&mut self, id: LoadId, reason: String) -> (r: Result<LoaderOutcome, LoaderError>)
        requires
            old(self).wf(),
        ensures
            final(self).wf(),
            final(self).hook_count() == old(self).hook_count(),
            final(self).hooks() == old(self).hooks(),
            final(self).materializer() == old(self).materializer(),
            reject_step(old(self).records(), final(self).records(), id, reason, r),
    {
        match self.loads.get(id.0) {
            Some(record) => match record.require(LoadPhase::Inspected) {
                Err(e) => {
                    return Err(e);
                },
                Ok(()) => {},
            },
            None => {
                return Err(LoaderError::UnknownLoad(id));
            },
        }
        let t = self.record_rejection(id, None, reason);
        Ok(LoaderOutcome::transitioned(t))
    }

    /// Publishes readiness only after successful Kernel registration.
    fn mark_ready(&mut self, id: LoadId) -> (r: Result<LoaderOutcome, LoaderError>)
        requires
            old(self).wf(),
        ensures
            final(self).wf(),
            final(self).hook_count() == old(self).hook_count(),
            final(self).hooks() == old(self).hooks(),
            final(self).materializer() == old(self).materializer(),
            plain_step(old(self).records(), final(self).records(), id, LoadPhase::Registered, LoadPhase::Ready, r),
    {
        match self.loads.get(id.0) {
            Some(record) => match record.require(LoadPhase::Registered) {
                Err(e) => {
                    return Err(e);
                },
                Ok(()) => {},
            },
            None => {
                return Err(LoaderError::UnknownLoad(id));
            },
        }
        let t = self.step(id, LoadPhase::Registered, LoadPhase::Ready);
        Ok(LoaderOutcome::transitioned(t))
    }

    /// Registers the inspected Definition before publishing `Registered`.
    fn register<Driver: EventLoopDriver>(&mut self, id: LoadId, runtime: &mut KernelRuntime<Driver>) -> (r: Result<LoaderOutcome, LoaderError>)
        requires
            old(self).wf(),
            old(runtime).wf(),
        ensures
            final(self).wf(),
            final(runtime).wf(),
            final(self).hook_count() == old(self).hook_count(),
            final(self).hooks() == old(self).hooks(),
            final(self).materializer() == old(self).materializer(),
            register_step(old(self).records(), final(self).records(), id, old(runtime).state(), old(runtime).next_runtime(),
                final(runtime).state(), final(runtime).next_runtime(), r),
    {
        let (definition, instance) = match self.loads.get(id.0) {
            None => {
                return Err(LoaderError::UnknownLoad(id));
            },
            Some(record) => {
                match record.require(LoadPhase::Admitted) {
                    Err(e) => {
                        return Err(e);
                    },
                    Ok(()) => {},
                }
                match &record.definition {
                    None => {
                        return Err(LoaderError::MissingInspectedDefinition(id));
                    },
                    Some(d) => (d.clone(), record.instance),
                }
            },
        };
        let ghost d = definition;
        let handled = runtime.handle(KernelEvent::register_component(definition, instance));
        match handled {
            Err(e) => {
                return Err(LoaderError::Kernel(e));
            },
            Ok(_) => {},
        }
        let t = self.step(id, LoadPhase::Admitted, LoadPhase::Registered);
        Ok(LoaderOutcome::transitioned(t))
    }

    /// Interprets one typed Loader Event against its Current State.
    pub fn handle<Driver: EventLoopDriver>(&mut self, event: LoaderEvent, runtime: &mut KernelRuntime<Driver>) -> (r: Result<LoaderOutcome, LoaderError>)
        where Materializer: ComponentMaterializer
        requires
            old(self).wf(),
            old(runtime).wf(),
        ensures
            final(self).wf(),
            final(runtime).wf(),
            final(self).hook_count() == old(self).hook_count(),
            final(self).hooks() == old(self).hooks(),
            loader_handled(old(self).records(), final(self).records(), old(self).hook_count(), old(runtime).state(), old(runtime).next_runtime(),
                final(runtime).state(), final(runtime).next_runtime(), event, r),
            loader_driven(old(self).records(), final(self).records(), old(self).materializer(), final(self).materializer(),
                old(self).hooks(), event, r),
    {
        match event {
            LoaderEvent::Declare(request) => self.declare(&request),
            LoaderEvent::Locate(id) => self.locate(id),
            LoaderEvent::Materialize(id) => self.materialize(id),
            LoaderEvent::Inspect(id) => self.inspect(id),
            LoaderEvent::Admit(id) => self.decide_admission(id),
            LoaderEvent::Reject { id, reason } => self.reject(id, reason),
            LoaderEvent::Register(id) => self.register(id, runtime),
            LoaderEvent::MarkReady(id) => self.mark_ready(id),
        }
    }
}

} // verus!
