//! Typed Events, observable outcomes and the event-processing seam of one Kernel Runtime.
use vstd::prelude::*;
use crate::declaration::{ComponentDefinition, DefinitionView, Event};
use crate::error::{DriverError, KernelError};
use crate::execution::{EventLoopDriver, SequentialExecutor};
use crate::graph::GraphState;
use crate::identity::{
    CapabilityId, ComponentDefinitionId, ComponentInstanceId, ComponentRuntimeId, ContextId, EffectId, FacetId, FacetSchemaId,
    RequirementId, RoomAddress,
};
use crate::mailbox::{BroadcastReceipt, ComponentRuntime, SendReceipt};
use crate::delivery::{mailboxes_bounded, runtime_ids_kept};
use crate::consistency::{active_requirements_bound, bindings_fit, plan_fits};
use crate::declaration::MailboxPolicy;
use crate::system::{Capability, ComponentInstance as Occurrence, Context, Facet, FacetSchema, Requirement};
use crate::distribution::{
    accept_routes, batch_sent, batch_sent_by, batches_delivered, batches_delivered_by, broadcast_deliveries, broadcast_delivered, broadcast_delivered_by, broadcast_listeners, emission_routes,
    emission_targets, room_views, steps_batches,
};
use crate::resolution::{
    BindingHook, ActivationPlan, PlanView, activation_applied, declared_mailbox_policy, default_plans, fresh_runtime, front_views, fronts_from, is_affected_closure, plan_views, requirements_of,
};
use crate::keyed::seq_to_map;
use crate::graph::{placements_of, registration_error};
use crate::system::ComponentInstance;
use crate::removal::{ConsumerDeactivation, RemovalPlan, removal_applied, removal_planned};
use crate::facet_lifecycle::effect_error;
use crate::system::{Binding, Effect, ResolutionState};

verus! {

/// A typed stimulus that can evolve one Kernel Runtime.
#[derive(Debug)]
pub enum KernelEvent {
    /// Introduces one complete Component Definition and one living occurrence.
    RegisterComponent {
        /// Complete declaration made inspectable by this Event.
        definition: ComponentDefinition,
        /// Stable identity assigned to the new Component Instance.
        instance_id: ComponentInstanceId,
    },
    /// Introduces one living Effect owned by an Active Component Instance.
    RecordEffect {
        /// Complete Effect identity and lifecycle owner.
        effect: Effect,
    },
    /// Removes one Component Instance and its lifecycle-owned resources.
    UnregisterComponent {
        /// Component Instance that disappears from the System Graph.
        instance_id: ComponentInstanceId,
    },
}

impl KernelEvent {
    /// Builds the registration Event for one complete declaration and occurrence.
    pub fn register_component(definition: ComponentDefinition, instance_id: ComponentInstanceId) -> (r: Self)
        ensures
            r == (KernelEvent::RegisterComponent { definition, instance_id }),
    {
        KernelEvent::RegisterComponent { definition, instance_id }
    }

    /// Builds an Event that records one lifecycle-owned Effect.
    pub fn record_effect(effect: Effect) -> (r: Self)
        ensures
            r == (KernelEvent::RecordEffect { effect }),
    {
        KernelEvent::RecordEffect { effect }
    }

    /// Builds an Event that removes one Component Instance.
    pub fn unregister_component(instance_id: ComponentInstanceId) -> (r: Self)
        ensures
            r == (KernelEvent::UnregisterComponent { instance_id }),
    {
        KernelEvent::UnregisterComponent { instance_id }
    }
}

/// One observable resolution-state change caused by an Event.
#[derive(Debug, Clone, Copy, PartialEq, Eq, Structural)]
pub struct LifecycleTransition {
    /// Component Instance whose state changed.
    pub instance_id: ComponentInstanceId,
    /// Stable state before the transition, absent for a new Instance.
    pub previous: Option<ResolutionState>,
    /// Stable state after the transition.
    pub current: ResolutionState,
}

impl LifecycleTransition {
    /// Describes one completed stable-state transition.
    pub fn new(instance_id: ComponentInstanceId, previous: Option<ResolutionState>, current: ResolutionState) -> (r: Self)
        ensures
            r == (LifecycleTransition { instance_id, previous, current }),
    {
        LifecycleTransition { instance_id, previous, current }
    }

    /// Returns the Component Instance affected by this transition.
    pub fn instance_id(&self) -> (r: ComponentInstanceId)
        ensures
            r == self.instance_id,
    {
        self.instance_id
    }

    /// Returns the prior stable state, or `None` for a new Instance.
    pub fn previous(&self) -> (r: Option<ResolutionState>)
        ensures
            r == self.previous,
    {
        self.previous
    }

    /// Returns the stable state reached by the transition.
    pub fn current(&self) -> (r: ResolutionState)
        ensures
            r == self.current,
    {
        self.current
    }
}

/// The transition of an Instance that a registration inserted.
pub open spec fn registered_transition(instance_id: ComponentInstanceId) -> LifecycleTransition {
    LifecycleTransition { instance_id, previous: None, current: ResolutionState::Pending }
}

/// The transition of an Instance that activated.
pub open spec fn activated_transition(instance_id: ComponentInstanceId) -> LifecycleTransition {
    LifecycleTransition { instance_id, previous: Some(ResolutionState::Pending), current: ResolutionState::Active }
}

/// The transition of a consumer that lost a provider.
pub open spec fn deactivated_transition(instance_id: ComponentInstanceId) -> LifecycleTransition {
    LifecycleTransition { instance_id, previous: Some(ResolutionState::Active), current: ResolutionState::Pending }
}

/// Observable graph and lifecycle changes produced by one accepted Event.
#[derive(Debug, Clone, PartialEq, Eq)]
pub struct TransitionOutcome {
    /// Stable lifecycle transitions in execution order.
    pub transitions: Vec<LifecycleTransition>,
    /// Bindings created while resolving affected Instances.
    pub created_bindings: Vec<Binding>,
}

impl TransitionOutcome {
    /// An outcome with no lifecycle change.
    pub fn unchanged() -> (r: Self)
        ensures
            r.transitions@ == Seq::<LifecycleTransition>::empty(),
            r.created_bindings@ == Seq::<Binding>::empty(),
    {
        TransitionOutcome { transitions: Vec::new(), created_bindings: Vec::new() }
    }

    /// Creates the initial Pending transition for a registered Instance.
    pub fn registered_pending(instance_id: ComponentInstanceId) -> (r: Self)
        ensures
            r.transitions@ == seq![registered_transition(instance_id)],
            r.created_bindings@ == Seq::<Binding>::empty(),
    {
        let mut transitions: Vec<LifecycleTransition> = Vec::new();
        transitions.push(LifecycleTransition::new(instance_id, None, ResolutionState::Pending));
        TransitionOutcome { transitions, created_bindings: Vec::new() }
    }

    /// Records one completed activation and the Bindings that enabled it.
    pub fn record_activation(&mut self, instance_id: ComponentInstanceId, bindings: &[Binding])
        ensures
            final(self).transitions@ == old(self).transitions@.push(activated_transition(instance_id)),
            final(self).created_bindings@ == old(self).created_bindings@ + bindings@,
    {
        self.transitions.push(LifecycleTransition::new(instance_id, Some(ResolutionState::Pending), ResolutionState::Active));
        let ghost before = self.created_bindings@;
        let ghost transitions = self.transitions@;
        let mut i: usize = 0;
        while i < bindings.len()
            invariant
                self.transitions@ == transitions,
                i <= bindings@.len(),
                self.created_bindings@ == before + bindings@.take(i as int),
            decreases bindings@.len() - i,
        {
            self.created_bindings.push(bindings[i]);
            proof {
                assert(bindings@.take(i as int + 1) =~= bindings@.take(i as int).push(bindings@[i as int]));
                assert(self.created_bindings@ =~= before + bindings@.take(i as int + 1));
            }
            i += 1;
        }
        assert(bindings@.take(bindings@.len() as int) =~= bindings@);
    }

    /// Records one consumer returned to Pending.
    pub fn record_deactivation(&mut self, instance_id: ComponentInstanceId)
        ensures
            final(self).transitions@ == old(self).transitions@.push(deactivated_transition(instance_id)),
            final(self).created_bindings@ == old(self).created_bindings@,
    {
        self.transitions.push(LifecycleTransition::new(instance_id, Some(ResolutionState::Active), ResolutionState::Pending));
    }

    /// Returns stable lifecycle transitions in their execution order.
    pub fn transitions(&self) -> (r: &[LifecycleTransition])
        ensures
            r@ == self.transitions@,
    {
        self.transitions.as_slice()
    }

    /// Returns Bindings created while processing the Event.
    pub fn created_bindings(&self) -> (r: &[Binding])
        ensures
            r@ == self.created_bindings@,
    {
        self.created_bindings.as_slice()
    }
}


/// All plans of the fronts, front after front.
pub open spec fn flat_fronts(fronts: Seq<Seq<PlanView>>) -> Seq<PlanView>
    decreases fronts.len(),
{
    if fronts.len() == 0 {
        Seq::empty()
    } else {
        flat_fronts(fronts.drop_last()) + fronts.last()
    }
}

/// All Bindings of the plans, plan after plan.
pub open spec fn plan_bindings(plans: Seq<PlanView>) -> Seq<Binding>
    decreases plans.len(),
{
    if plans.len() == 0 {
        Seq::empty()
    } else {
        plan_bindings(plans.drop_last()) + plans.last().bindings
    }
}

/// The activation transitions of the plans, in order.
pub open spec fn plan_transitions(plans: Seq<PlanView>) -> Seq<LifecycleTransition> {
    plans.map_values(|p: PlanView| activated_transition(p.instance_id))
}

/// `gs` are the graphs produced by applying `plans` in order with Runtime identities counted from `first`.
pub open spec fn activation_chain(gs: Seq<GraphState>, plans: Seq<PlanView>, first: u64) -> bool {
    &&& gs.len() == plans.len() + 1
    &&& first + plans.len() <= u64::MAX
    &&& forall|i: int| 0 <= i < plans.len() ==> activation_applied(#[trigger] gs[i], gs[i + 1], plans[i], ComponentRuntimeId((first + i) as u64))
}

/// Why the activation of `plan` with the next Runtime identity `next` could not start.
pub open spec fn start_failure(e: KernelError, plan: PlanView, next: int) -> bool {
    ||| (e matches KernelError::DriverStart { instance_id, .. } && instance_id == plan.instance_id)
    ||| (e == KernelError::RuntimeIdsExhausted && next == u64::MAX)
}

/// Some prefix of `plans` activated from `g0`, in order, ending in `new`; the next plan, if any, failed to start.
pub open spec fn activations_started(
    g0: GraphState,
    id0: u64,
    new: GraphState,
    id1: u64,
    plans: Seq<PlanView>,
    t0: Seq<LifecycleTransition>,
    t1: Seq<LifecycleTransition>,
    b0: Seq<Binding>,
    b1: Seq<Binding>,
    r: Result<(), KernelError>,
) -> bool {
    exists|gs: Seq<GraphState>, n: int| {
        &&& 0 <= n <= plans.len()
        &&& gs[0] == g0
        &&& activation_chain(gs, plans.take(n), id0)
        &&& new == gs[n]
        &&& id1 == id0 + n
        &&& t1 == t0 + plan_transitions(plans.take(n))
        &&& b1 == b0 + plan_bindings(plans.take(n))
        &&& n == plans.len() ==> r is Ok
        &&& n < plans.len() ==> (r matches Err(e) && start_failure(e, plans[n], id0 + n))
    }
}

/// `ds` are the Driver's states while the first `n` plans start: each `start`
/// was handed the plan's Instance and the next Runtime identity, and answered `Ok`.
pub open spec fn starts_answered<D: EventLoopDriver>(ds: Seq<D>, plans: Seq<PlanView>, first: u64, n: int) -> bool {
    &&& ds.len() == n + 1
    &&& forall|i: int| 0 <= i < n ==> (#[trigger] ds[i]).start_answer(&ds[i + 1], plans[i].instance_id, ComponentRuntimeId((first + i) as u64), Ok(()))
}

/// The Driver, handed `plan`'s Instance and identity `runtime_id`, answered with
/// an error that the run reports as `r`.
pub open spec fn start_refused<D: EventLoopDriver>(d: D, after: D, plan: PlanView, runtime_id: ComponentRuntimeId, r: Result<(), KernelError>) -> bool {
    exists|e: DriverError| d.start_answer(&after, plan.instance_id, runtime_id, Err(e))
        && r == Err::<(), KernelError>(KernelError::DriverStart { instance_id: plan.instance_id, error: e })
}

/// How the Driver went from `d0` to `d1` while the first `n` plans started and the run ended with `r`.
pub open spec fn driver_started<D: EventLoopDriver>(d0: D, d1: D, plans: Seq<PlanView>, first: u64, n: int, r: Result<(), KernelError>) -> bool {
    exists|ds: Seq<D>| {
        &&& starts_answered(ds, plans, first, n)
        &&& ds[0] == d0
        &&& if n < plans.len() && first + n < u64::MAX {
            start_refused(ds[n], d1, plans[n], ComponentRuntimeId((first + n) as u64), r)
        } else {
            d1 == ds[n]
        }
    }
}

/// `activations_started`, together with what the Driver was handed and answered on the way.
pub open spec fn activations_driven<D: EventLoopDriver>(
    g0: GraphState,
    d0: D,
    id0: u64,
    new: GraphState,
    d1: D,
    id1: u64,
    plans: Seq<PlanView>,
    t0: Seq<LifecycleTransition>,
    t1: Seq<LifecycleTransition>,
    b0: Seq<Binding>,
    b1: Seq<Binding>,
    r: Result<(), KernelError>,
) -> bool {
    exists|gs: Seq<GraphState>, n: int| {
        &&& 0 <= n <= plans.len()
        &&& gs[0] == g0
        &&& activation_chain(gs, plans.take(n), id0)
        &&& new == gs[n]
        &&& id1 == id0 + n
        &&& t1 == t0 + plan_transitions(plans.take(n))
        &&& b1 == b0 + plan_bindings(plans.take(n))
        &&& n == plans.len() ==> r is Ok
        &&& n < plans.len() ==> (r matches Err(e) && start_failure(e, plans[n], id0 + n))
        &&& driver_started(d0, d1, plans, id0, n, r)
    }
}

impl ActivationPlan {
    /// A copy of this plan.
    pub fn duplicate(&self) -> (r: Self)
        ensures
            r@ == self@,
    {
        let mut bindings: Vec<Binding> = Vec::new();
        let mut i: usize = 0;
        while i < self.bindings.len()
            invariant
                i <= self.bindings@.len(),
                bindings@ == self.bindings@.take(i as int),
            decreases self.bindings@.len() - i,
        {
            bindings.push(self.bindings[i]);
            proof {
                assert(self.bindings@.take(i as int + 1) =~= self.bindings@.take(i as int).push(self.bindings@[i as int]));
            }
            i += 1;
        }
        let mut dependencies: Vec<ComponentInstanceId> = Vec::new();
        let mut j: usize = 0;
        while j < self.dependencies.len()
            invariant
                j <= self.dependencies@.len(),
                dependencies@ == self.dependencies@.take(j as int),
            decreases self.dependencies@.len() - j,
        {
            dependencies.push(self.dependencies[j]);
            proof {
                assert(self.dependencies@.take(j as int + 1) =~= self.dependencies@.take(j as int).push(self.dependencies@[j as int]));
            }
            j += 1;
        }
        assert(self.bindings@.take(self.bindings@.len() as int) =~= self.bindings@);
        assert(self.dependencies@.take(self.dependencies@.len() as int) =~= self.dependencies@);
        ActivationPlan { instance_id: self.instance_id, bindings, dependencies }
    }
}

/// All plans of ordered fronts, front after front.
pub fn flatten_fronts(fronts: &Vec<Vec<ActivationPlan>>) -> (r: Vec<ActivationPlan>)
    ensures
        plan_views(r@) == flat_fronts(front_views(fronts@)),
{
    let ghost fv = front_views(fronts@);
    let mut out: Vec<ActivationPlan> = Vec::new();
    let mut i: usize = 0;
    while i < fronts.len()
        invariant
            fv == front_views(fronts@),
            i <= fronts@.len(),
            plan_views(out@) == flat_fronts(fv.take(i as int)),
        decreases fronts@.len() - i,
    {
        let front = &fronts[i];
        let ghost before = plan_views(out@);
        let mut j: usize = 0;
        while j < front.len()
            invariant
                j <= front@.len(),
                plan_views(out@) == before + plan_views(front@).take(j as int),
            decreases front@.len() - j,
        {
            let ghost prev = plan_views(out@);
            out.push(front[j].duplicate());
            proof {
                assert(plan_views(out@) =~= prev.push(front@[j as int]@));
                assert(plan_views(front@).take(j as int + 1) =~= plan_views(front@).take(j as int).push(front@[j as int]@));
            }
            j += 1;
        }
        proof {
            assert(fv.take(i as int + 1).drop_last() =~= fv.take(i as int));
            assert(plan_views(front@).take(j as int) =~= fv[i as int]);
        }
        i += 1;
    }
    assert(fv.take(fronts@.len() as int) =~= fv);
    out
}


/// `new` is `old` after registering `definition` as the Pending Instance `instance_id`.
pub open spec fn registered(old: GraphState, new: GraphState, definition: ComponentDefinition, instance_id: ComponentInstanceId) -> bool {
    &&& new.wf()
    &&& new.definitions@ == old.definitions@.insert(definition.id.0, definition)
    &&& new.instances@ == old.instances@.insert(instance_id.0, ComponentInstance::pending_spec(instance_id, definition.id))
    &&& new.requirements@ == old.requirements@.union_prefer_right(seq_to_map(definition.requirements@))
    &&& new.capabilities@ == old.capabilities@.union_prefer_right(seq_to_map(placements_of(definition.capabilities@, instance_id)))
    &&& new.same_except_registration(old)
}

/// `order` lists, front after front, the allow-all activation plans of the Instances a registration of `seed` affects.
pub open spec fn activation_order(g: GraphState, seed: ComponentInstanceId, order: Seq<PlanView>) -> bool {
    exists|cs: Set<u64>, plans: Seq<PlanView>| is_affected_closure(g, seed.0, cs) && default_plans(g, cs, plans)
        && order == flat_fronts(fronts_from(plans, Set::<u64>::empty()))
}

/// The outcome of registering `definition` as `instance_id` in graph `g0` with next Runtime identity `id0`.
pub open spec fn registration_handled(
    g0: GraphState,
    id0: u64,
    new: GraphState,
    id1: u64,
    definition: ComponentDefinition,
    instance_id: ComponentInstanceId,
    r: Result<TransitionOutcome, KernelError>,
) -> bool {
    match registration_error(g0, definition, instance_id) {
        Some(e) => r == Err::<TransitionOutcome, KernelError>(e) && new == g0 && id1 == id0,
        None => exists|g1: GraphState, order: Seq<PlanView>, t: Seq<LifecycleTransition>, b: Seq<Binding>, res: Result<(), KernelError>| {
            &&& registered(g0, g1, definition, instance_id)
            &&& activation_order(g1, instance_id, order)
            &&& activations_started(g1, id0, new, id1, order, seq![registered_transition(instance_id)], t, Seq::empty(), b, res)
            &&& match res {
                Ok(_) => r matches Ok(o) && o.transitions@ == t && o.created_bindings@ == b,
                Err(e) => r == Err::<TransitionOutcome, KernelError>(e),
            }
        },
    }
}

/// `registration_handled`, together with what the Driver was handed and answered.
pub open spec fn registration_driven<D: EventLoopDriver>(
    g0: GraphState,
    d0: D,
    id0: u64,
    new: GraphState,
    d1: D,
    id1: u64,
    definition: ComponentDefinition,
    instance_id: ComponentInstanceId,
    r: Result<TransitionOutcome, KernelError>,
) -> bool {
    match registration_error(g0, definition, instance_id) {
        Some(e) => r == Err::<TransitionOutcome, KernelError>(e) && new == g0 && id1 == id0 && d1 == d0,
        None => exists|g1: GraphState, order: Seq<PlanView>, t: Seq<LifecycleTransition>, b: Seq<Binding>, res: Result<(), KernelError>| {
            &&& registered(g0, g1, definition, instance_id)
            &&& activation_order(g1, instance_id, order)
            &&& activations_driven(g1, d0, id0, new, d1, id1, order, seq![registered_transition(instance_id)], t, Seq::empty(), b, res)
            &&& match res {
                Ok(_) => r matches Ok(o) && o.transitions@ == t && o.created_bindings@ == b,
                Err(e) => r == Err::<TransitionOutcome, KernelError>(e),
            }
        },
    }
}

/// The Runtimes a removal stops, in order: every consumer, then the removed Instance when it was Active.
pub open spec fn stop_order(plan: &RemovalPlan) -> Seq<ComponentInstanceId> {
    plan.consumers@.map_values(|c: ConsumerDeactivation| c.instance_id) + if plan.previous == ResolutionState::Active {
        seq![plan.instance_id]
    } else {
        Seq::<ComponentInstanceId>::empty()
    }
}

/// The transitions of the consumers a removal returns to Pending, in plan order.
pub open spec fn deactivation_transitions(plan: &RemovalPlan) -> Seq<LifecycleTransition> {
    plan.consumers@.map_values(|c: ConsumerDeactivation| deactivated_transition(c.instance_id))
}

/// The Driver refused to stop the Runtime of `id`.
pub open spec fn stop_refused(r: Result<TransitionOutcome, KernelError>, id: ComponentInstanceId) -> bool {
    r matches Err(KernelError::DriverStop { instance_id, .. }) && instance_id == id
}

/// The outcome of unregistering `instance_id` from graph `g0`.
pub open spec fn unregistration_handled(g0: GraphState, new: GraphState, instance_id: ComponentInstanceId, r: Result<TransitionOutcome, KernelError>) -> bool {
    if !g0.instances@.contains_key(instance_id.0) {
        r == Err::<TransitionOutcome, KernelError>(KernelError::UnknownComponentInstance(instance_id)) && new == g0
    } else {
        exists|plan: RemovalPlan| {
            &&& removal_planned(g0, instance_id, &plan)
            &&& {
                ||| (new == g0 && exists|n: int| 0 <= n < stop_order(&plan).len() && stop_refused(r, #[trigger] stop_order(&plan)[n]))
                ||| (removal_applied(g0, new, &plan) && (r matches Ok(o)
                    && o.transitions@ == deactivation_transitions(&plan) && o.created_bindings@.len() == 0))
            }
        }
    }
}

/// `ds` are the Driver's states while the first `n` Runtimes of `order` stop, each `stop` handed that Instance and answering `Ok`.
pub open spec fn stops_answered<D: EventLoopDriver>(ds: Seq<D>, order: Seq<ComponentInstanceId>, n: int) -> bool {
    &&& 0 <= n <= order.len()
    &&& ds.len() == n + 1
    &&& forall|i: int| 0 <= i < n ==> (#[trigger] ds[i]).stop_answer(&ds[i + 1], order[i], Ok(()))
}

/// The Driver, handed Instance `id` to stop, answered with an error that the Event reports as `r`.
pub open spec fn stop_refused_by<D: EventLoopDriver>(d: D, after: D, id: ComponentInstanceId, r: Result<TransitionOutcome, KernelError>) -> bool {
    exists|e: DriverError| d.stop_answer(&after, id, Err(e))
        && r == Err::<TransitionOutcome, KernelError>(KernelError::DriverStop { instance_id: id, error: e })
}

/// `unregistration_handled`, with the Driver going from `d0` to `d1`: the
/// Runtimes of the stop order are stopped in that order until the first refusal,
/// which leaves the graph unchanged; when all stop, the removal is applied.
pub open spec fn unregistration_driven<D: EventLoopDriver>(
    g0: GraphState,
    d0: D,
    new: GraphState,
    d1: D,
    instance_id: ComponentInstanceId,
    r: Result<TransitionOutcome, KernelError>,
) -> bool {
    if !g0.instances@.contains_key(instance_id.0) {
        r == Err::<TransitionOutcome, KernelError>(KernelError::UnknownComponentInstance(instance_id)) && new == g0 && d1 == d0
    } else {
        exists|plan: RemovalPlan, ds: Seq<D>, n: int| {
            &&& #[trigger] removal_planned(g0, instance_id, &plan)
            &&& #[trigger] stops_answered(ds, stop_order(&plan), n)
            &&& ds[0] == d0
            &&& if n < stop_order(&plan).len() {
                new == g0 && stop_refused_by(ds[n], d1, stop_order(&plan)[n], r)
            } else {
                &&& d1 == ds[n]
                &&& removal_applied(g0, new, &plan)
                &&& r matches Ok(o) && o.transitions@ == deactivation_transitions(&plan) && o.created_bindings@.len() == 0
            }
        }
    }
}

/// The outcome of recording `effect` in graph `g0`.
pub open spec fn effect_handled(g0: GraphState, new: GraphState, effect: Effect, r: Result<TransitionOutcome, KernelError>) -> bool {
    match effect_error(g0, effect) {
        Some(e) => r == Err::<TransitionOutcome, KernelError>(e) && new == g0,
        None => r matches Ok(o) && o.transitions@.len() == 0 && o.created_bindings@.len() == 0
            && new.effects@ == g0.effects@.insert(effect.id.0, effect) && new.same_except_effects(g0),
    }
}

/// A read-only observation of one Kernel Runtime's current System Graph.
#[derive(Debug, Clone, Copy)]
pub struct SystemGraph<'graph> {
    /// Runtime-owned graph state borrowed for this observation.
    state: &'graph GraphState,
}

impl<'graph> SystemGraph<'graph> {
    #[verifier::type_invariant]
    spec fn observes_ordered_tables(&self) -> bool {
        self.state.wf()
    }

    /// The observed graph.
    pub closed spec fn graph(&self) -> GraphState {
        *self.state
    }

    /// Creates an observation tied to one Runtime's graph state.
    pub fn new(state: &'graph GraphState) -> (r: Self)
        requires
            state.wf(),
        ensures
            r.graph() == *state,
    {
        SystemGraph { state }
    }

    /// Finds a complete Component Definition by identity.
    pub fn definition(&self, id: ComponentDefinitionId) -> (r: Option<&'graph ComponentDefinition>)
        ensures
            r is Some <==> self.graph().definitions@.contains_key(id.0),
            r matches Some(d) ==> *d == self.graph().definitions@[id.0],
    {
        proof {
            use_type_invariant(self);
        }
        self.state.definitions.get(id.0)
    }

    /// Finds a living Component Instance by identity.
    pub fn instance(&self, id: ComponentInstanceId) -> (r: Option<&'graph Occurrence>)
        ensures
            r is Some <==> self.graph().instances@.contains_key(id.0),
            r matches Some(i) ==> *i == self.graph().instances@[id.0],
    {
        proof {
            use_type_invariant(self);
        }
        self.state.instances.get(id.0)
    }

    /// Finds an inspectable Requirement by identity.
    pub fn requirement(&self, id: RequirementId) -> (r: Option<&'graph Requirement>)
        ensures
            r is Some <==> self.graph().requirements@.contains_key(id.0),
            r matches Some(q) ==> *q == self.graph().requirements@[id.0],
    {
        proof {
            use_type_invariant(self);
        }
        self.state.requirements.get(id.0)
    }

    /// Finds an inspectable Capability by identity.
    pub fn capability(&self, id: CapabilityId) -> (r: Option<&'graph Capability>)
        ensures
            r is Some <==> self.graph().capabilities@.contains_key(id.0),
            r matches Some(c) ==> *c == self.graph().capabilities@[id.0].capability,
    {
        proof {
            use_type_invariant(self);
        }
        match self.state.capabilities.get(id.0) {
            Some(placement) => Some(&placement.capability),
            None => None,
        }
    }

    /// Finds the explicit Binding resolving a Requirement, when one exists.
    pub fn binding(&self, id: RequirementId) -> (r: Option<&'graph Binding>)
        ensures
            r is Some <==> self.graph().bindings@.contains_key(id.0),
            r matches Some(b) ==> *b == self.graph().bindings@[id.0],
    {
        proof {
            use_type_invariant(self);
        }
        self.state.bindings.get(id.0)
    }

    /// Finds the living execution attached to an Active Component Instance.
    pub fn component_runtime(&self, id: ComponentInstanceId) -> (r: Option<&'graph ComponentRuntime>)
        ensures
            r is Some <==> self.graph().runtimes@.contains_key(id.0),
            r matches Some(rt) ==> *rt == self.graph().runtimes@[id.0],
    {
        proof {
            use_type_invariant(self);
        }
        self.state.runtimes.get(id.0)
    }

    /// Finds a living lifecycle-owned Effect by identity.
    pub fn effect(&self, id: EffectId) -> (r: Option<&'graph Effect>)
        ensures
            r is Some <==> self.graph().effects@.contains_key(id.0),
            r matches Some(e) ==> *e == self.graph().effects@[id.0],
    {
        proof {
            use_type_invariant(self);
        }
        self.state.effects.get(id.0)
    }

    /// Finds a structural Context by identity.
    pub fn context(&self, id: ContextId) -> (r: Option<&'graph Context>)
        ensures
            r is Some <==> self.graph().contexts@.contains_key(id.0),
            r matches Some(c) ==> *c == self.graph().contexts@[id.0],
    {
        proof {
            use_type_invariant(self);
        }
        self.state.contexts.get(id.0)
    }

    /// Finds an Addon-owned Facet Schema by identity.
    pub fn facet_schema(&self, id: FacetSchemaId) -> (r: Option<&'graph FacetSchema>)
        ensures
            r is Some <==> self.graph().facet_schemas@.contains_key(id.0),
            r matches Some(f) ==> *f == self.graph().facet_schemas@[id.0],
    {
        proof {
            use_type_invariant(self);
        }
        self.state.facet_schemas.get(id.0)
    }

    /// Finds a typed Facet attachment by identity.
    pub fn facet(&self, id: FacetId) -> (r: Option<&'graph Facet>)
        ensures
            r is Some <==> self.graph().facets@.contains_key(id.0),
            r matches Some(f) ==> *f == self.graph().facets@[id.0],
    {
        proof {
            use_type_invariant(self);
        }
        self.state.facets.get(id.0)
    }
}

/// Every living Runtime has an identity below `next`, and no two living Runtimes share one.
pub open spec fn runtime_ids_below(g: GraphState, next: u64) -> bool {
    &&& forall|k: u64| #[trigger] g.runtimes@.contains_key(k) ==> g.runtimes@[k].id.0 < next
    &&& forall|a: u64, b: u64| #[trigger] g.runtimes@.contains_key(a) && #[trigger] g.runtimes@.contains_key(b) && a != b
        ==> g.runtimes@[a].id != g.runtimes@[b].id
}

/// A change that keeps every Runtime's identity keeps the identities below `next` and distinct.
pub proof fn lemma_ids_kept_below(g0: GraphState, g1: GraphState, next: u64)
    requires
        runtime_ids_below(g0, next),
        runtime_ids_kept(g0.runtimes@, g1.runtimes@),
    ensures
        runtime_ids_below(g1, next),
{
    assert forall|k: u64| #[trigger] g1.runtimes@.contains_key(k) implies g1.runtimes@[k].id.0 < next by {
        assert(g0.runtimes@.contains_key(k));
    }
    assert forall|a: u64, b: u64| #[trigger] g1.runtimes@.contains_key(a) && #[trigger] g1.runtimes@.contains_key(b) && a != b
        implies g1.runtimes@[a].id != g1.runtimes@[b].id by {
        assert(g0.runtimes@.contains_key(a) && g0.runtimes@.contains_key(b));
    }
}

/// An activation with the next identity keeps the identities distinct and below the following one.
pub proof fn lemma_activation_ids(before: GraphState, after: GraphState, plan: PlanView, rid: ComponentRuntimeId)
    requires
        runtime_ids_below(before, rid.0),
        activation_applied(before, after, plan, rid),
        rid.0 < u64::MAX,
    ensures
        runtime_ids_below(after, (rid.0 + 1) as u64),
{
    let pk = plan.instance_id.0;
    if before.instances@.contains_key(pk) {
        let policy = choose|policy: MailboxPolicy| declared_mailbox_policy(before, pk, policy)
            && fresh_runtime(after.runtimes@[pk], rid, plan.instance_id, policy);
        assert forall|k: u64| #[trigger] after.runtimes@.contains_key(k) implies after.runtimes@[k].id.0 < rid.0 + 1 by {
            assert(after.runtimes@.dom().contains(k));
            if k != pk {
                assert(before.runtimes@.contains_key(k));
            }
        }
        assert forall|a: u64, b: u64| #[trigger] after.runtimes@.contains_key(a) && #[trigger] after.runtimes@.contains_key(b) && a != b
            implies after.runtimes@[a].id != after.runtimes@[b].id by {
            assert(after.runtimes@.dom().contains(a) && after.runtimes@.dom().contains(b));
            if a != pk {
                assert(before.runtimes@.contains_key(a));
            }
            if b != pk {
                assert(before.runtimes@.contains_key(b));
            }
        }
    }
}

/// The plan binds, in order, every Requirement of its Instance's Definition, when the Instance lives.
pub open spec fn plan_binds_requirements(g: GraphState, p: PlanView) -> bool {
    g.instances@.contains_key(p.instance_id.0) ==> p.bindings.len() == requirements_of(g, p.instance_id.0).len()
        && forall|j: int| 0 <= j < p.bindings.len() ==> (#[trigger] p.bindings[j]).requirement == requirements_of(g, p.instance_id.0)[j].id
}

/// One activation of a plan made for `g0`, applied to a graph with the same
/// Definitions, Capabilities and Instances as `g0`, keeps every Active
/// Instance's Requirements bound and every Binding fitting, and keeps those tables.
pub proof fn lemma_activation_step(g0: GraphState, before: GraphState, after: GraphState, plan: PlanView, rid: ComponentRuntimeId)
    requires
        activation_applied(before, after, plan, rid),
        active_requirements_bound(before),
        bindings_fit(before),
        before.definitions@ == g0.definitions@,
        before.capabilities@ == g0.capabilities@,
        forall|q: u64| #[trigger] g0.instances@.contains_key(q) ==> before.instances@.contains_key(q)
            && before.instances@[q].definition_id == g0.instances@[q].definition_id,
        forall|q: u64| #[trigger] before.instances@.contains_key(q) ==> g0.instances@.contains_key(q),
        plan_binds_requirements(g0, plan),
        plan_fits(g0, plan),
    ensures
        active_requirements_bound(after),
        bindings_fit(after),
        after.definitions@ == g0.definitions@,
        after.capabilities@ == g0.capabilities@,
        forall|q: u64| #[trigger] g0.instances@.contains_key(q) ==> after.instances@.contains_key(q)
            && after.instances@[q].definition_id == g0.instances@[q].definition_id,
        forall|q: u64| #[trigger] after.instances@.contains_key(q) ==> g0.instances@.contains_key(q),
{
    let pk = plan.instance_id.0;
    assert(g0.instances@.contains_key(pk));
    assert(requirements_of(before, pk) == requirements_of(g0, pk));
    crate::consistency::lemma_activation_keeps_bound(before, after, plan, rid);
    crate::consistency::lemma_activation_keeps_fit(before, after, plan, rid);
    assert forall|q: u64| #[trigger] g0.instances@.contains_key(q) implies after.instances@.contains_key(q)
        && after.instances@[q].definition_id == g0.instances@[q].definition_id by {
        assert(before.instances@.contains_key(q));
    }
    assert forall|q: u64| #[trigger] after.instances@.contains_key(q) implies g0.instances@.contains_key(q) by {
        assert(before.instances@.contains_key(q));
    }
}

/// An activation adds one fresh, empty Mailbox and leaves the others as they were,
/// so Mailboxes within their bounds stay within them.
pub proof fn lemma_activation_bounded(before: GraphState, after: GraphState, plan: PlanView, rid: ComponentRuntimeId)
    requires
        mailboxes_bounded(before.runtimes@),
        activation_applied(before, after, plan, rid),
    ensures
        mailboxes_bounded(after.runtimes@),
{
    let pk = plan.instance_id.0;
    if before.instances@.contains_key(pk) {
        let policy = choose|policy: MailboxPolicy| declared_mailbox_policy(before, pk, policy)
            && fresh_runtime(after.runtimes@[pk], rid, plan.instance_id, policy);
        assert forall|k: u64| #[trigger] after.runtimes@.contains_key(k) implies after.runtimes@[k].mailbox.bounded() by {
            assert(after.runtimes@.dom().contains(k));
            if k != pk {
                assert(before.runtimes@.contains_key(k));
            }
        }
    }
}

/// The isolated evaluator and owner of exactly one System Graph.
#[derive(Debug)]
pub struct KernelRuntime<Driver = SequentialExecutor> {
    /// Mutable graph state owned exclusively by this Runtime.
    graph: GraphState,
    /// Interchangeable execution strategy selected for this Runtime.
    driver: Driver,
    /// Next identity reserved for a successfully started Component Runtime.
    next_runtime_id: u64,
}

impl<Driver> KernelRuntime<Driver> {
    /// The System Graph owned by this Runtime.
    pub closed spec fn state(&self) -> GraphState {
        self.graph
    }

    /// The execution strategy this Runtime drives.
    pub closed spec fn driver(&self) -> Driver {
        self.driver
    }

    /// The identity the next started Component Runtime receives.
    pub closed spec fn next_runtime(&self) -> u64 {
        self.next_runtime_id
    }

    /// The owned graph is well formed and consistent, every living Runtime
    /// has its own identity below the next one handed out, every Mailbox is
    /// within its bound, every Requirement of an Active Instance is bound, and
    /// every Binding names a registered Capability of its Requirement's contract.
    pub closed spec fn wf(&self) -> bool {
        &&& self.graph.wf()
        &&& self.graph.consistent()
        &&& runtime_ids_below(self.graph, self.next_runtime_id)
        &&& mailboxes_bounded(self.graph.runtimes@)
        &&& active_requirements_bound(self.graph)
        &&& bindings_fit(self.graph)
    }

    /// Component Runtime identities are unique: every living Runtime has an
    /// identity of its own, below the next identity this Runtime hands out.
    pub proof fn law_runtime_identities_unique(&self)
        requires
            self.wf(),
        ensures
            runtime_ids_below(self.state(), self.next_runtime()),
    {
    }

    /// In every state of a Runtime, exactly the Active Instances have a Component
    /// Runtime, each keyed by its own Instance.
    pub proof fn law_runtimes_of_active_instances(&self)
        requires
            self.wf(),
        ensures
            forall|k: u64| #[trigger] self.state().instances@.contains_key(k)
                ==> (self.state().runtimes@.contains_key(k) <==> self.state().instances@[k].resolution == ResolutionState::Active),
            forall|k: u64| #[trigger] self.state().runtimes@.contains_key(k)
                ==> self.state().instances@.contains_key(k) && self.state().runtimes@[k].instance_id.0 == k,
    {
    }

    /// In every state of a Runtime, each Requirement of the Definition of an
    /// Active Instance has a Binding, and every Binding is found under the
    /// Requirement it binds, which is a registered Requirement.
    pub proof fn law_active_requirements_bound(&self)
        requires
            self.wf(),
        ensures
            forall|k: u64, j: int| #[trigger] self.state().instances@.contains_key(k)
                && self.state().instances@[k].resolution == ResolutionState::Active && 0 <= j < requirements_of(self.state(), k).len()
                ==> self.state().bindings@.contains_key((#[trigger] requirements_of(self.state(), k)[j]).id.0),
            forall|k: u64| #[trigger] self.state().bindings@.contains_key(k)
                ==> self.state().bindings@[k].requirement.0 == k && self.state().requirements@.contains_key(k),
    {
        self.graph.bindings.lemma_view();
    }

    /// In every state of a Runtime, every Binding is found under the Requirement
    /// it binds and names a registered Capability whose contract is that
    /// Requirement's and whose provider is the Binding's provider, a living Instance.
    pub proof fn law_bindings_compatible(&self)
        requires
            self.wf(),
        ensures
            forall|k: u64| #[trigger] self.state().bindings@.contains_key(k) ==> {
                let b = self.state().bindings@[k];
                &&& b.requirement.0 == k
                &&& self.state().requirements@.contains_key(k)
                &&& self.state().capabilities@.contains_key(b.capability.0)
                &&& self.state().capabilities@[b.capability.0].capability.contract == self.state().requirements@[k].contract
                &&& self.state().capabilities@[b.capability.0].provider_id == b.provider
                &&& self.state().instances@.contains_key(b.provider.0)
            },
    {
        self.graph.bindings.lemma_view();
        assert forall|k: u64| #[trigger] self.state().bindings@.contains_key(k) implies self.state().instances@.contains_key(self.state().bindings@[k].provider.0) by {
            let c = self.state().bindings@[k].capability.0;
            assert(crate::consistency::binding_fits(self.graph, k));
            assert(crate::consistency::published_by_living(self.graph, c));
        }
    }

    /// In every state of a Runtime, each Component Runtime's Mailbox holds no more
    /// pending Deliveries than its positive capacity.
    pub proof fn law_mailboxes_within_bounds(&self)
        requires
            self.wf(),
        ensures
            forall|k: u64| #[trigger] self.state().runtimes@.contains_key(k)
                ==> 0 < self.state().runtimes@[k].mailbox.policy.capacity.spec_get()
                && self.state().runtimes@[k].mailbox.pending().len() <= self.state().runtimes@[k].mailbox.policy.capacity.spec_get(),
    {
        assert forall|k: u64| #[trigger] self.state().runtimes@.contains_key(k)
            implies self.state().runtimes@[k].mailbox.bounded() by {
        }
    }

    /// Activates the plans in order, each after the Driver started its Runtime.
    #[verifier::spinoff_prover]
    #[verifier::rlimit(60)]
    fn start_activations(&mut self, plans: &Vec<ActivationPlan>, outcome: &mut TransitionOutcome) -> (r: Result<(), KernelError>)
        where Driver: EventLoopDriver
        requires
            old(self).wf(),
            forall|p: int, i: int| 0 <= p < plans@.len() && 0 <= i < plans@[p].bindings@.len()
                ==> old(self).graph.requirements@.contains_key((#[trigger] plans@[p].bindings@[i]).requirement.0),
            forall|p: int| 0 <= p < plans@.len() ==> plan_binds_requirements(old(self).graph, (#[trigger] plans@[p])@),
            forall|p: int| 0 <= p < plans@.len() ==> plan_fits(old(self).graph, (#[trigger] plans@[p])@),
        ensures
            final(self).wf(),
            activations_started(old(self).state(), old(self).next_runtime(), final(self).state(), final(self).next_runtime(), plan_views(plans@),
                old(outcome).transitions@, final(outcome).transitions@, old(outcome).created_bindings@, final(outcome).created_bindings@, r),
            activations_driven(old(self).state(), old(self).driver(), old(self).next_runtime(), final(self).state(), final(self).driver(),
                final(self).next_runtime(), plan_views(plans@), old(outcome).transitions@, final(outcome).transitions@,
                old(outcome).created_bindings@, final(outcome).created_bindings@, r),
    {
        let ghost g0 = self.graph;
        let ghost id0 = self.next_runtime_id;
        let ghost t0 = outcome.transitions@;
        let ghost b0 = outcome.created_bindings@;
        let ghost pv = plan_views(plans@);
        let ghost mut gs: Seq<GraphState> = seq![g0];
        let ghost d0 = self.driver;
        let ghost mut ds: Seq<Driver> = seq![d0];
        proof {
            assert(pv.take(0) =~= Seq::<PlanView>::empty());
            assert(plan_transitions(pv.take(0)) =~= Seq::<LifecycleTransition>::empty());
            assert(t0 + plan_transitions(pv.take(0)) =~= t0);
            assert(b0 + plan_bindings(pv.take(0)) =~= b0);
        }
        let mut k: usize = 0;
        while k < plans.len()
            invariant
                self.graph.wf(),
                self.graph.consistent(),
                runtime_ids_below(self.graph, self.next_runtime_id),
                mailboxes_bounded(self.graph.runtimes@),
                active_requirements_bound(self.graph),
                bindings_fit(self.graph),
                self.graph.capabilities@ == g0.capabilities@,
                forall|p: int| 0 <= p < plans@.len() ==> plan_fits(g0, (#[trigger] plans@[p])@),
                self.graph.definitions@ == g0.definitions@,
                forall|q: u64| #[trigger] g0.instances@.contains_key(q) ==> self.graph.instances@.contains_key(q)
                    && self.graph.instances@[q].definition_id == g0.instances@[q].definition_id,
                forall|q: u64| #[trigger] self.graph.instances@.contains_key(q) ==> g0.instances@.contains_key(q),
                forall|p: int| 0 <= p < plans@.len() ==> plan_binds_requirements(g0, (#[trigger] plans@[p])@),
                self.graph.requirements@ == g0.requirements@,
                forall|p: int, i: int| 0 <= p < plans@.len() && 0 <= i < plans@[p].bindings@.len()
                    ==> g0.requirements@.contains_key((#[trigger] plans@[p].bindings@[i]).requirement.0),
                pv == plan_views(plans@),
                g0 == old(self).graph,
                id0 == old(self).next_runtime_id,
                t0 == old(outcome).transitions@,
                b0 == old(outcome).created_bindings@,
                k <= plans@.len(),
                gs[0] == g0,
                activation_chain(gs, pv.take(k as int), id0),
                self.graph == gs[k as int],
                self.next_runtime_id == id0 + k,
                outcome.transitions@ == t0 + plan_transitions(pv.take(k as int)),
                outcome.created_bindings@ == b0 + plan_bindings(pv.take(k as int)),
                d0 == old(self).driver,
                starts_answered(ds, pv, id0, k as int),
                ds[0] == d0,
                self.driver == ds[k as int],
            decreases plans@.len() - k,
        {
            let plan = &plans[k];
            if self.next_runtime_id == u64::MAX {
                proof {
                    assert(start_failure(KernelError::RuntimeIdsExhausted, pv[k as int], id0 + k));
                    assert(driver_started(d0, self.driver, pv, id0, k as int, Err::<(), KernelError>(KernelError::RuntimeIdsExhausted)));
                }
                return Err(KernelError::RuntimeIdsExhausted);
            }
            let runtime_id = ComponentRuntimeId::new(self.next_runtime_id);
            let ghost d_before = self.driver;
            let started = self.driver.start(plan.instance_id, runtime_id);
            let ghost answer = started;
            match started {
                Err(error) => {
                    let e = KernelError::DriverStart { instance_id: plan.instance_id, error };
                    proof {
                        assert(start_failure(e, pv[k as int], id0 + k));
                        assert(plans@[k as int]@ == pv[k as int]);
                        assert(start_refused(ds[k as int], self.driver, pv[k as int], runtime_id, Err::<(), KernelError>(e)));
                        assert(driver_started(d0, self.driver, pv, id0, k as int, Err::<(), KernelError>(e)));
                    }
                    return Err(e);
                },
                Ok(()) => {},
            }
            let ghost d_after = self.driver;
            assert(answer is Ok);
            assert(answer->Ok_0 == ());
            assert(answer == Ok::<(), DriverError>(()));
            assert(d_before.start_answer(&d_after, plan.instance_id, runtime_id, Ok(())));
            self.next_runtime_id = self.next_runtime_id + 1;
            let ghost before = self.graph;
            self.graph.apply_activation(plan, runtime_id);
            proof {
                assert forall|i: int| 0 <= i < plan@.bindings.len() implies before.requirements@.contains_key(#[trigger] plan@.bindings[i].requirement.0) by {
                    assert(plans@[k as int].bindings@[i] == plan@.bindings[i]);
                }
                crate::consistency::lemma_activation_consistent(before, self.graph, plan@, runtime_id);
                lemma_activation_ids(before, self.graph, plan@, runtime_id);
                lemma_activation_bounded(before, self.graph, plan@, runtime_id);
                assert(plan_binds_requirements(g0, plans@[k as int]@) && plan_fits(g0, plans@[k as int]@));
                lemma_activation_step(g0, before, self.graph, plan@, runtime_id);
            }
            outcome.record_activation(plan.instance_id, plan.bindings.as_slice());
            proof {
                let old_gs = gs;
                gs = gs.push(self.graph);
                let p0 = pv.take(k as int);
                let p1 = pv.take(k as int + 1);
                assert(p1.drop_last() =~= p0);
                assert(p1.last() == plan@);
                assert forall|i: int| 0 <= i < p1.len() implies activation_applied(#[trigger] gs[i], gs[i + 1], p1[i], ComponentRuntimeId((id0 + i) as u64)) by {
                    if i < p0.len() {
                        assert(old_gs[i] == gs[i] && old_gs[i + 1] == gs[i + 1]);
                        assert(activation_applied(old_gs[i], old_gs[i + 1], p0[i], ComponentRuntimeId((id0 + i) as u64)));
                    }
                }
                assert(plan_transitions(p1) =~= plan_transitions(p0).push(activated_transition(plan.instance_id)));
                assert(outcome.transitions@ =~= t0 + plan_transitions(p1));
                assert(outcome.created_bindings@ =~= b0 + plan_bindings(p1));
                let old_ds = ds;
                ds = ds.push(self.driver);
                assert(plans@[k as int]@ == pv[k as int]);
                assert forall|i: int| 0 <= i < k + 1 implies (#[trigger] ds[i]).start_answer(&ds[i + 1], pv[i].instance_id,
                    ComponentRuntimeId((id0 + i) as u64), Ok(())) by {
                    if i < k {
                        assert(old_ds[i] == ds[i] && old_ds[i + 1] == ds[i + 1]);
                    } else {
                        assert(ds[i] == d_before && ds[i + 1] == d_after);
                        assert(runtime_id == ComponentRuntimeId((id0 + i) as u64));
                    }
                }
            }
            k += 1;
        }
        proof {
            assert(pv.take(plans@.len() as int) =~= pv);
        }
        Ok(())
    }

    /// Registers one Component and activates every Instance the registration makes ready.
    fn handle_registration(&mut self, definition: ComponentDefinition, instance_id: ComponentInstanceId) -> (r: Result<TransitionOutcome, KernelError>)
        where Driver: EventLoopDriver
        requires
            old(self).wf(),
        ensures
            final(self).wf(),
            registration_handled(old(self).state(), old(self).next_runtime(), final(self).state(), final(self).next_runtime(), definition, instance_id, r),
            registration_driven(old(self).state(), old(self).driver(), old(self).next_runtime(), final(self).state(), final(self).driver(),
                final(self).next_runtime(), definition, instance_id, r),
    {
        let ghost g0 = self.graph;
        let ghost d = definition;
        match self.graph.register_pending(definition, instance_id) {
            Err(e) => {
                return Err(e);
            },
            Ok(()) => {},
        }
        let ghost g1 = self.graph;
        proof {
            crate::consistency::lemma_registered_consistent(g0, g1, d, instance_id);
            crate::consistency::lemma_registered_keeps_bound(g0, g1, d, instance_id);
            crate::consistency::lemma_registered_keeps_fit(g0, g1, d, instance_id);
        }
        let hooks: Vec<Box<dyn BindingHook>> = Vec::new();
        let plan = match self.graph.affected_activation_plan(instance_id, hooks.as_slice()) {
            Ok(plan) => plan,
            Err(e) => {
                return Err(e);
            },
        };
        let plans = flatten_fronts(&plan.fronts);
        proof {
            let (cs, ps) = choose|cs: Set<u64>, ps: Seq<PlanView>| is_affected_closure(g1, instance_id.0, cs) && default_plans(g1, cs, ps)
                && front_views(plan.fronts@) == fronts_from(ps, Set::<u64>::empty());
            assert forall|p: int, i: int| 0 <= p < plans@.len() && 0 <= i < plans@[p].bindings@.len()
                implies g1.requirements@.contains_key((#[trigger] plans@[p].bindings@[i]).requirement.0) by {
                let fs = fronts_from(ps, Set::<u64>::empty());
                assert(plan_views(plans@)[p] == plans@[p]@);
                crate::consistency::lemma_flat_fronts_members(fs, p);
                let (a, b) = choose|a: int, b: int| 0 <= a < fs.len() && 0 <= b < fs[a].len() && fs[a][b] == flat_fronts(fs)[p];
                crate::consistency::lemma_fronts_members(ps, Set::<u64>::empty(), a, b);
                crate::consistency::lemma_default_plan_requirements(g1, cs, ps, plans@[p]@);
                assert(plans@[p]@.bindings[i] == plans@[p].bindings@[i]);
            }
            assert forall|p: int| 0 <= p < plans@.len() implies plan_binds_requirements(g1, (#[trigger] plans@[p])@) by {
                let fs = fronts_from(ps, Set::<u64>::empty());
                assert(plan_views(plans@)[p] == plans@[p]@);
                crate::consistency::lemma_flat_fronts_members(fs, p);
                let (a, b) = choose|a: int, b: int| 0 <= a < fs.len() && 0 <= b < fs[a].len() && fs[a][b] == flat_fronts(fs)[p];
                crate::consistency::lemma_fronts_members(ps, Set::<u64>::empty(), a, b);
                crate::laws::lemma_default_plan_binds_own(g1, cs, ps, plans@[p]@);
            }
            assert forall|p: int| 0 <= p < plans@.len() implies plan_fits(g1, (#[trigger] plans@[p])@) by {
                let fs = fronts_from(ps, Set::<u64>::empty());
                assert(plan_views(plans@)[p] == plans@[p]@);
                crate::consistency::lemma_flat_fronts_members(fs, p);
                let (a, b) = choose|a: int, b: int| 0 <= a < fs.len() && 0 <= b < fs[a].len() && fs[a][b] == flat_fronts(fs)[p];
                crate::consistency::lemma_fronts_members(ps, Set::<u64>::empty(), a, b);
                crate::laws::lemma_default_plan_fits(g1, cs, ps, plans@[p]@);
            }
        }
        let mut outcome = TransitionOutcome::registered_pending(instance_id);
        let started = self.start_activations(&plans, &mut outcome);
        proof {
            let order = plan_views(plans@);
            assert(registered(g0, g1, d, instance_id));
            assert(activation_order(g1, instance_id, order));
        }
        match started {
            Err(e) => Err(e),
            Ok(()) => Ok(outcome),
        }
    }

    /// Stops every Runtime a removal releases, then removes the Instance and its lifecycle-owned resources.
    fn handle_unregistration(&mut self, instance_id: ComponentInstanceId) -> (r: Result<TransitionOutcome, KernelError>)
        where Driver: EventLoopDriver
        requires
            old(self).wf(),
        ensures
            final(self).wf(),
            final(self).next_runtime() == old(self).next_runtime(),
            unregistration_handled(old(self).state(), final(self).state(), instance_id, r),
            unregistration_driven(old(self).state(), old(self).driver(), final(self).state(), final(self).driver(), instance_id, r),
    {
        let ghost g0 = self.graph;
        let ghost d0 = self.driver;
        let plan = match self.graph.removal_plan(instance_id) {
            Err(e) => {
                return Err(e);
            },
            Ok(plan) => plan,
        };
        let ghost order = stop_order(&plan);
        let ghost mut ds: Seq<Driver> = seq![d0];
        let mut i: usize = 0;
        while i < plan.consumers.len()
            invariant
                self.graph == g0,
                self.next_runtime_id == old(self).next_runtime_id,
                g0 == old(self).graph,
                order == stop_order(&plan),
                removal_planned(g0, instance_id, &plan),
                g0.wf(),
                g0.consistent(),
                runtime_ids_below(g0, self.next_runtime_id),
                mailboxes_bounded(g0.runtimes@),
                active_requirements_bound(g0),
                bindings_fit(g0),
                g0.instances@.contains_key(instance_id.0),
                i <= plan.consumers@.len(),
                d0 == old(self).driver,
                ds[0] == d0,
                self.driver == ds[i as int],
                stops_answered(ds, order, i as int),
            decreases plan.consumers@.len() - i,
        {
            let consumer = plan.consumers[i].instance_id;
            let ghost before = self.driver;
            let stopped = self.driver.stop(consumer);
            let ghost answer = stopped;
            proof {
                assert(order[i as int] == consumer);
            }
            match stopped {
                Err(error) => {
                    let r = Err(KernelError::DriverStop { instance_id: consumer, error });
                    proof {
                        assert(stop_refused(r, order[i as int]));
                        assert(stop_refused_by(ds[i as int], self.driver, order[i as int], r));
                        assert(unregistration_driven(g0, d0, self.graph, self.driver, instance_id, r));
                    }
                    return r;
                },
                Ok(()) => {},
            }
            proof {
                assert(answer is Ok && answer->Ok_0 == ());
                let old_ds = ds;
                ds = ds.push(self.driver);
                assert forall|q: int| 0 <= q < i + 1 implies (#[trigger] ds[q]).stop_answer(&ds[q + 1], order[q], Ok(())) by {
                    if q < i {
                        assert(old_ds[q] == ds[q] && old_ds[q + 1] == ds[q + 1]);
                    } else {
                        assert(ds[q] == before && ds[q + 1] == self.driver);
                    }
                }
            }
            i += 1;
        }
        let ghost n_consumers = plan.consumers@.len() as int;
        if plan.previous == ResolutionState::Active {
            let ghost before = self.driver;
            let stopped = self.driver.stop(instance_id);
            let ghost answer = stopped;
            proof {
                assert(order[n_consumers] == instance_id);
            }
            match stopped {
                Err(error) => {
                    let r = Err(KernelError::DriverStop { instance_id, error });
                    proof {
                        assert(stop_refused(r, order[n_consumers]));
                        assert(stop_refused_by(ds[n_consumers], self.driver, order[n_consumers], r));
                        assert(unregistration_driven(g0, d0, self.graph, self.driver, instance_id, r));
                    }
                    return r;
                },
                Ok(()) => {},
            }
            proof {
                assert(answer is Ok && answer->Ok_0 == ());
                let old_ds = ds;
                ds = ds.push(self.driver);
                assert forall|q: int| 0 <= q < n_consumers + 1 implies (#[trigger] ds[q]).stop_answer(&ds[q + 1], order[q], Ok(())) by {
                    if q < n_consumers {
                        assert(old_ds[q] == ds[q] && old_ds[q + 1] == ds[q + 1]);
                    } else {
                        assert(ds[q] == before && ds[q + 1] == self.driver);
                    }
                }
                assert(stops_answered(ds, order, n_consumers + 1));
            }
        }
        let ghost n_stopped: int = if plan.previous == ResolutionState::Active { n_consumers + 1 } else { n_consumers };
        assert(stops_answered(ds, order, n_stopped) && n_stopped == order.len() && self.driver == ds[n_stopped]);
        self.graph.apply_removal(&plan);
        assert(self.graph.consistent()) by {
            crate::consistency::lemma_removal_consistent(g0, self.graph, instance_id, plan);
        }
        assert(active_requirements_bound(self.graph)) by {
            crate::consistency::lemma_removal_keeps_bound(g0, self.graph, instance_id, plan);
        }
        assert(bindings_fit(self.graph)) by {
            crate::consistency::lemma_removal_keeps_fit(g0, self.graph, instance_id, plan);
        }
        assert(mailboxes_bounded(self.graph.runtimes@)) by {
            assert forall|k: u64| #[trigger] self.graph.runtimes@.contains_key(k) implies self.graph.runtimes@[k].mailbox.bounded() by {
                assert(g0.runtimes@.contains_key(k));
            }
        }
        let mut outcome = TransitionOutcome::unchanged();
        let mut j: usize = 0;
        while j < plan.consumers.len()
            invariant
                j <= plan.consumers@.len(),
                outcome.transitions@ == deactivation_transitions(&plan).take(j as int),
                outcome.created_bindings@.len() == 0,
            decreases plan.consumers@.len() - j,
        {
            outcome.record_deactivation(plan.consumers[j].instance_id);
            proof {
                assert(deactivation_transitions(&plan).take(j as int + 1)
                    =~= deactivation_transitions(&plan).take(j as int).push(deactivated_transition(plan.consumers@[j as int].instance_id)));
            }
            j += 1;
        }
        assert(deactivation_transitions(&plan).take(plan.consumers@.len() as int) =~= deactivation_transitions(&plan));
        let r = Ok(outcome);
        assert(unregistration_driven(g0, d0, self.graph, self.driver, instance_id, r));
        r
    }

    /// Records one lifecycle-owned Effect.
    fn handle_effect(&mut self, effect: Effect) -> (r: Result<TransitionOutcome, KernelError>)
        requires
            old(self).wf(),
        ensures
            final(self).wf(),
            final(self).next_runtime() == old(self).next_runtime(),
            effect_handled(old(self).state(), final(self).state(), effect, r),
            final(self).driver() == old(self).driver(),
    {
        let ghost g0 = self.graph;
        let r = match self.graph.record_effect(effect) {
            Err(e) => Err(e),
            Ok(()) => Ok(TransitionOutcome::unchanged()),
        };
        proof {
            crate::consistency::lemma_bound_same_tables(g0, self.graph);
            crate::consistency::lemma_fit_same_tables(g0, self.graph);
        }
        r
    }
}


impl KernelRuntime<SequentialExecutor> {
    /// Creates an empty Kernel Runtime with no shared graph state.
    pub fn new() -> (r: Self)
        ensures
            r.wf(),
            r.state().is_empty(),
            r.next_runtime() == 1,
    {
        let graph = GraphState::new();
        proof {
            crate::consistency::lemma_empty_consistent(graph);
        }
        KernelRuntime { graph, driver: SequentialExecutor::new(), next_runtime_id: 1 }
    }
}

impl Default for KernelRuntime<SequentialExecutor> {
    fn default() -> (r: Self)
        ensures
            r.wf(),
            r.state().is_empty(),
            r.next_runtime() == 1,
    {
        KernelRuntime::new()
    }
}

impl<Driver: EventLoopDriver> KernelRuntime<Driver> {
    /// Creates an empty Kernel Runtime using an interchangeable execution strategy.
    pub fn with_event_loop_driver(driver: Driver) -> (r: Self)
        ensures
            r.wf(),
            r.state().is_empty(),
            r.next_runtime() == 1,
    {
        let graph = GraphState::new();
        proof {
            crate::consistency::lemma_empty_consistent(graph);
        }
        KernelRuntime { graph, driver, next_runtime_id: 1 }
    }

    /// Evolves this Runtime by interpreting one typed Event.
    ///
    /// A registration with an unsatisfied necessary Requirement leaves its
    /// Component Instance Pending, without a Binding or Component Runtime. An
    /// Instance becomes Active only after compatible Bindings have been selected
    /// and the configured Driver has started its Runtime.
    pub fn handle(&mut self, event: KernelEvent) -> (r: Result<TransitionOutcome, KernelError>)
        requires
            old(self).wf(),
        ensures
            final(self).wf(),
            match event {
                KernelEvent::RegisterComponent { definition, instance_id } => registration_handled(
                    old(self).state(), old(self).next_runtime(), final(self).state(), final(self).next_runtime(), definition, instance_id, r)
                    && registration_driven(old(self).state(), old(self).driver(), old(self).next_runtime(), final(self).state(),
                        final(self).driver(), final(self).next_runtime(), definition, instance_id, r),
                KernelEvent::RecordEffect { effect } => effect_handled(old(self).state(), final(self).state(), effect, r)
                    && final(self).next_runtime() == old(self).next_runtime() && final(self).driver() == old(self).driver(),
                KernelEvent::UnregisterComponent { instance_id } => unregistration_handled(old(self).state(), final(self).state(), instance_id, r)
                    && final(self).next_runtime() == old(self).next_runtime()
                    && unregistration_driven(old(self).state(), old(self).driver(), final(self).state(), final(self).driver(), instance_id, r),
            },
    {
        match event {
            KernelEvent::RegisterComponent { definition, instance_id } => self.handle_registration(definition, instance_id),
            KernelEvent::RecordEffect { effect } => self.handle_effect(effect),
            KernelEvent::UnregisterComponent { instance_id } => self.handle_unregistration(instance_id),
        }
    }

    /// Returns a read-only view of this Runtime's current System Graph.
    pub fn graph(&self) -> (r: SystemGraph<'_>)
        requires
            self.wf(),
        ensures
            r.graph() == self.state(),
    {
        SystemGraph::new(&self.graph)
    }

    /// Sends one typed Event to an available logical Room.
    pub fn send(&mut self, address: RoomAddress, event: Event) -> (r: Result<SendReceipt, KernelError>)
        requires
            old(self).wf(),
        ensures
            final(self).wf(),
            final(self).next_runtime() == old(self).next_runtime(),
            final(self).state().definitions == old(self).state().definitions,
            final(self).state().instances == old(self).state().instances,
            final(self).state().bindings == old(self).state().bindings,
            final(self).state().subscriptions == old(self).state().subscriptions,
            final(self).state().requirements == old(self).state().requirements,
            final(self).state().capabilities == old(self).state().capabilities,
            final(self).state().effects == old(self).state().effects,
            final(self).state().contexts == old(self).state().contexts,
            final(self).state().facet_schemas == old(self).state().facet_schemas,
            final(self).state().facets == old(self).state().facets,
            room_views(final(self).state().rooms@) == accept_routes(room_views(old(self).state().rooms@), seq![(address, event@)]).0,
            accept_routes(room_views(old(self).state().rooms@), seq![(address, event@)]).1 matches Err(e)
                ==> r == Err::<SendReceipt, KernelError>(e) && final(self).state().runtimes == old(self).state().runtimes
                    && final(self).driver() == old(self).driver(),
            accept_routes(room_views(old(self).state().rooms@), seq![(address, event@)]).1 matches Ok(steps)
                ==> batch_sent(old(self).state(), final(self).state(), steps_batches(old(self).state().subscriptions@, steps), r),
            accept_routes(room_views(old(self).state().rooms@), seq![(address, event@)]).1 matches Ok(steps)
                ==> batch_sent_by(old(self).state(), final(self).state(), old(self).driver(), final(self).driver(),
                    steps_batches(old(self).state().subscriptions@, steps), r),
    {
        let ghost g0 = self.graph;
        let r = self.graph.send(&mut self.driver, address, event);
        proof {
            match accept_routes(room_views(g0.rooms@), seq![(address, event@)]).1 {
                Ok(steps) => crate::distribution::lemma_batch_sent_keeps_ids(g0, self.graph, steps_batches(g0.subscriptions@, steps), r),
                Err(_) => {},
            }
            lemma_ids_kept_below(g0, self.graph, self.next_runtime_id);
            crate::consistency::lemma_bound_same_tables(g0, self.graph);
            crate::consistency::lemma_fit_same_tables(g0, self.graph);
        }
        r
    }

    /// Emits one Event through Rooms declared by the source Component contract.
    pub fn emit(&mut self, source: ComponentInstanceId, event: &Event) -> (r: Result<Vec<SendReceipt>, KernelError>)
        requires
            old(self).wf(),
        ensures
            final(self).wf(),
            final(self).next_runtime() == old(self).next_runtime(),
            final(self).state().definitions == old(self).state().definitions,
            final(self).state().instances == old(self).state().instances,
            final(self).state().bindings == old(self).state().bindings,
            final(self).state().subscriptions == old(self).state().subscriptions,
            final(self).state().requirements == old(self).state().requirements,
            final(self).state().capabilities == old(self).state().capabilities,
            final(self).state().effects == old(self).state().effects,
            final(self).state().contexts == old(self).state().contexts,
            final(self).state().facet_schemas == old(self).state().facet_schemas,
            final(self).state().facets == old(self).state().facets,
            !old(self).state().runtimes@.contains_key(source.0) ==> r == Err::<Vec<SendReceipt>, KernelError>(KernelError::InactiveEventSource(source))
                && final(self).state() == old(self).state() && final(self).driver() == old(self).driver(),
            old(self).state().runtimes@.contains_key(source.0) ==> match emission_targets(old(self).state(), source, event@.event_type) {
                Err(e) => r == Err::<Vec<SendReceipt>, KernelError>(e) && final(self).state() == old(self).state()
                    && final(self).driver() == old(self).driver(),
                Ok(rooms) => {
                    let routed = accept_routes(room_views(old(self).state().rooms@), emission_routes(rooms, event@));
                    &&& room_views(final(self).state().rooms@) == routed.0
                    &&& routed.1 matches Err(e) ==> r == Err::<Vec<SendReceipt>, KernelError>(e) && final(self).state().runtimes == old(self).state().runtimes
                        && final(self).driver() == old(self).driver()
                    &&& routed.1 matches Ok(steps) ==> batches_delivered(old(self).state(), final(self).state(), steps_batches(old(self).state().subscriptions@, steps), r)
                    &&& routed.1 matches Ok(steps) ==> batches_delivered_by(old(self).state(), final(self).state(), old(self).driver(),
                        final(self).driver(), steps_batches(old(self).state().subscriptions@, steps), r)
                },
            },
    {
        let ghost g0 = self.graph;
        let r = self.graph.emit(&mut self.driver, source, event);
        proof {
            if g0.runtimes@.contains_key(source.0) {
                match emission_targets(g0, source, event@.event_type) {
                    Ok(rooms) => match accept_routes(room_views(g0.rooms@), emission_routes(rooms, event@)).1 {
                        Ok(steps) => crate::distribution::lemma_batches_delivered_keeps_ids(g0, self.graph, steps_batches(g0.subscriptions@, steps), r),
                        Err(_) => {},
                    },
                    Err(_) => {},
                }
            }
            lemma_ids_kept_below(g0, self.graph, self.next_runtime_id);
            crate::consistency::lemma_bound_same_tables(g0, self.graph);
            crate::consistency::lemma_fit_same_tables(g0, self.graph);
        }
        r
    }

    /// Broadcasts one Event to every Active registered listener.
    pub fn broadcast(&mut self, event: &Event) -> (r: Result<BroadcastReceipt, KernelError>)
        requires
            old(self).wf(),
        ensures
            final(self).wf(),
            final(self).next_runtime() == old(self).next_runtime(),
            crate::delivery::same_except_runtimes(old(self).state(), final(self).state()),
            broadcast_delivered(old(self).state(), final(self).state(),
                broadcast_deliveries(broadcast_listeners(old(self).state(), event@.event_type), event@), r),
            broadcast_delivered_by(old(self).state(), final(self).state(), old(self).driver(), final(self).driver(),
                broadcast_deliveries(broadcast_listeners(old(self).state(), event@.event_type), event@), r),
    {
        let ghost g0 = self.graph;
        let r = self.graph.broadcast(&mut self.driver, event);
        proof {
            crate::distribution::lemma_broadcast_keeps_ids(g0, self.graph,
                broadcast_deliveries(broadcast_listeners(g0, event@.event_type), event@), r);
            lemma_ids_kept_below(g0, self.graph, self.next_runtime_id);
            crate::consistency::lemma_bound_same_tables(g0, self.graph);
            crate::consistency::lemma_fit_same_tables(g0, self.graph);
        }
        r
    }
}

} // verus!
