//! Properties of the Kernel that span several operations or every state.
use vstd::prelude::*;
use crate::declaration::{EventView, MailboxOverflowStrategy, MailboxPolicy};
use crate::distribution::accept_routes;
use crate::graph::GraphState;
use crate::identity::{ComponentInstanceId, LoadId, RoomAddress};
use crate::loader::{
    LoadPhase, LoadRecord, LoaderError, LoaderEvent, LoaderOutcome, LoadTransition, admit_step, allowed_step, loader_handled, records_follow_phases,
    phase_error,
};
use crate::mailbox::{DeliveryView, MailboxPlacement, RoomView, placement_for, queue_after};
use crate::resolution::{PlanView, fronts_from, plan_ids, plan_ready, ready_in, waiting_in};
use crate::runtime::{TransitionOutcome, registration_handled};
use crate::graph::registration_error;
use crate::declaration::ComponentDefinition;
use crate::error::KernelError;
use crate::keyed::Keyed;
use crate::mailbox::Subscription;
use crate::removal::{RemovalPlan, owned_effects, plan_consumer, plan_drops_effect, plan_released, removal_applied, removal_planned};
use crate::system::{Binding, Effect, Requirement, ResolutionState};
use crate::identity::{CapabilityContractId, ComponentRuntimeId};
use crate::keyed::{insert_all, seq_to_map};
use crate::graph::{placements_of, requirement_conflicts};
use crate::search::first_where;
use crate::execution::EventLoopDriver;
use crate::resolution::{plans_ordered, closed_under, contract_provided, pulled_by, candidate_active, candidate_of, declared_mailbox_policy, default_candidate, fresh_runtime, compatible_candidates, default_binding, default_plan_exists, default_plans, eligible_for, is_affected_closure, is_default_plan, requirements_of, activation_applied};
use crate::runtime::{LifecycleTransition, activated_transition, activations_driven, driver_started, registration_driven, start_refused, starts_answered, activation_chain, activation_order, activations_started, flat_fronts, plan_bindings, plan_transitions, registered, registered_transition, start_failure};

verus! {

/// The Event moved exactly the lifecycle it reports, along an allowed step, and left every other one unchanged.
pub open spec fn ordered_transition(old: Map<u64, LoadRecord>, new: Map<u64, LoadRecord>, t: LoadTransition) -> bool {
    &&& new.contains_key(t.id.0)
    &&& new[t.id.0].phase == t.current
    &&& match t.previous {
        Some(p) => old.contains_key(t.id.0) && old[t.id.0].phase == p && allowed_step(p, t.current),
        None => !old.contains_key(t.id.0) && t.current == LoadPhase::Declared,
    }
    &&& forall|k: u64| k != t.id.0 && #[trigger] old.contains_key(k) ==> new.contains_key(k) && new[k] == old[k]
}

/// Loader Events cannot skip or reorder phases: an accepted Event performs one
/// allowed step of one lifecycle, and a refused Event changes no lifecycle.
pub proof fn law_loader_phases_in_order(
    old: Map<u64, LoadRecord>,
    new: Map<u64, LoadRecord>,
    hooks: nat,
    rt0: GraphState,
    n0: u64,
    rt1: GraphState,
    n1: u64,
    event: LoaderEvent,
    r: Result<LoaderOutcome, LoaderError>,
)
    requires
        loader_handled(old, new, hooks, rt0, n0, rt1, n1, event, r),
    ensures
        r is Err ==> new == old,
        r matches Ok(o) ==> (o.transition matches Some(t) && ordered_transition(old, new, t)),
{
    match event {
        LoaderEvent::Declare(request) => {
            if r is Ok {
                let t = LoadTransition { id: request.id, previous: None, current: LoadPhase::Declared };
                assert(ordered_transition(old, new, t));
            }
        },
        _ => {},
    }
}

/// Inspection yields the Definition later registered: no Event but inspection
/// changes a stored Definition, and registration hands the Kernel a copy of it.
pub proof fn law_inspected_definition_registered(
    old: Map<u64, LoadRecord>,
    new: Map<u64, LoadRecord>,
    hooks: nat,
    rt0: GraphState,
    n0: u64,
    rt1: GraphState,
    n1: u64,
    event: LoaderEvent,
    r: Result<LoaderOutcome, LoaderError>,
)
    requires
        loader_handled(old, new, hooks, rt0, n0, rt1, n1, event, r),
    ensures
        !(event is Inspect) ==> forall|k: u64| #[trigger] old.contains_key(k) ==> new.contains_key(k) && new[k].definition == old[k].definition,
        event matches LoaderEvent::Register(id) ==> (r is Ok ==> (old[id.0].definition matches Some(inspected)
            && exists|d: ComponentDefinition, rk: Result<TransitionOutcome, KernelError>|
                d@ == inspected@ && #[trigger] registration_handled(rt0, n0, rt1, n1, d, old[id.0].instance, rk) && rk is Ok)),
{
}

/// Without active hooks, admission of an Inspected lifecycle is allow-all.
pub proof fn law_admission_without_hooks(old: Map<u64, LoadRecord>, new: Map<u64, LoadRecord>, id: LoadId, r: Result<LoaderOutcome, LoaderError>)
    requires
        admit_step(old, new, id, 0, r),
        old.contains_key(id.0),
        old[id.0].phase == LoadPhase::Inspected,
    ensures
        new == old.insert(id.0, LoadRecord { phase: LoadPhase::Admitted, ..old[id.0] }),
        r == Ok::<LoaderOutcome, LoaderError>(LoaderOutcome { transition: Some(LoadTransition { id, previous: Some(LoadPhase::Inspected), current: LoadPhase::Admitted }) }),
{
}

/// A Mailbox never holds more pending Deliveries than its bound, never drops an
/// accepted Delivery silently, and a rejection leaves it unchanged.
pub proof fn law_mailbox_bounded(policy: MailboxPolicy, pending: Seq<DeliveryView>, d: DeliveryView)
    requires
        pending.len() <= policy.capacity.spec_get(),
        policy.capacity.spec_get() > 0,
    ensures
        queue_after(policy, pending, d).len() <= policy.capacity.spec_get(),
        placement_for(policy, pending) == MailboxPlacement::RejectedFull ==> queue_after(policy, pending, d) == pending,
        placement_for(policy, pending) != MailboxPlacement::RejectedFull ==> queue_after(policy, pending, d).last() == d,
        placement_for(policy, pending) == MailboxPlacement::RejectedFull <==> (pending.len() == policy.capacity.spec_get()
            && policy.overflow == MailboxOverflowStrategy::RejectNew),
{
}

/// Room acceptance is FIFO: two Events accepted one after the other by the same
/// Room receive consecutive sequences, and a refused acceptance changes no Room.
pub proof fn law_room_sequences_consecutive(rooms: Map<u64, RoomView>, address: RoomAddress, first: EventView, second: EventView)
    ensures
        accept_routes(rooms, seq![(address, first)]).1 is Err ==> accept_routes(rooms, seq![(address, first)]).0 == rooms,
        ({
            let (after_first, one) = accept_routes(rooms, seq![(address, first)]);
            let (after_second, two) = accept_routes(after_first, seq![(address, second)]);
            one is Ok && two is Ok ==> two->Ok_0[0].sequence.0 == one->Ok_0[0].sequence.0 + 1
                && two->Ok_0[0].address == address && one->Ok_0[0].address == address
        }),
{
    let s1 = seq![(address, first)];
    let s2 = seq![(address, second)];
    assert(s1.drop_last() =~= Seq::<(RoomAddress, EventView)>::empty());
    assert(s2.drop_last() =~= Seq::<(RoomAddress, EventView)>::empty());
    assert(accept_routes(rooms, s1.drop_last()) == (rooms, Ok::<Seq<crate::distribution::RoomStep>, KernelError>(Seq::empty())));
    let after_first = accept_routes(rooms, s1).0;
    assert(accept_routes(after_first, s2.drop_last()) == (after_first, Ok::<Seq<crate::distribution::RoomStep>, KernelError>(Seq::empty())));
}

/// Every dependency of a plan in a front is completed beforehand or activated by an earlier front.
pub proof fn law_fronts_respect_dependencies(plans: Seq<PlanView>, completed: Set<u64>, i: int, j: int, d: int)
    requires
        0 <= i < fronts_from(plans, completed).len(),
        0 <= j < fronts_from(plans, completed)[i].len(),
        0 <= d < fronts_from(plans, completed)[i][j].dependencies.len(),
    ensures
        completed.contains(fronts_from(plans, completed)[i][j].dependencies[d].0)
            || exists|a: int, b: int| 0 <= a < i && 0 <= b < fronts_from(plans, completed)[a].len()
                && #[trigger] fronts_from(plans, completed)[a][b].instance_id == fronts_from(plans, completed)[i][j].dependencies[d],
    decreases plans.len(),
{
    let fronts = fronts_from(plans, completed);
    let ready = plans.filter(ready_in(completed));
    let rest = plans.filter(waiting_in(completed));
    crate::resolution::lemma_filter_partition(plans, ready_in(completed), waiting_in(completed));
    assert(ready.len() > 0);
    let later = fronts_from(rest, completed + plan_ids(ready));
    assert(fronts == seq![ready] + later);
    if i == 0 {
        assert(fronts[0] == ready);
        let p = ready[j];
        assert(ready_in(completed)(p)) by {
            plans.lemma_filter_pred(ready_in(completed), j);
        }
        assert(plan_ready(completed, p));
    } else {
        assert(fronts[i] == later[i - 1]);
        assert(rest.len() < plans.len());
        law_fronts_respect_dependencies(rest, completed + plan_ids(ready), i - 1, j, d);
        let dep = later[i - 1][j].dependencies[d];
        if !(completed + plan_ids(ready)).contains(dep.0) {
            let (a, b) = choose|a: int, b: int| 0 <= a < i - 1 && 0 <= b < later[a].len() && #[trigger] later[a][b].instance_id == dep;
            assert(fronts[a + 1] == later[a]);
            assert(fronts[a + 1][b].instance_id == dep);
        } else if !completed.contains(dep.0) {
            assert(plan_ids(ready).contains(dep.0));
            let b = choose|b: int| 0 <= b < ready.len() && ready[b].instance_id.0 == dep.0;
            assert(fronts[0][b].instance_id == dep);
        }
    }
}


/// The Instances activated by the first `n` fronts.
pub open spec fn front_ids(fronts: Seq<Seq<PlanView>>, n: int) -> Set<u64> {
    Set::new(|k: u64| exists|a: int, b: int| 0 <= a < n && 0 <= b < fronts[a].len() && #[trigger] fronts[a][b].instance_id.0 == k)
}

/// The Instances done after one more front are those done before, with the
/// first front's Instances, and those of the later fronts.
pub proof fn lemma_front_ids_step(ready: Seq<PlanView>, later: Seq<Seq<PlanView>>, completed: Set<u64>, n: int)
    requires
        0 <= n <= later.len(),
    ensures
        completed + front_ids(seq![ready] + later, n + 1) == (completed + plan_ids(ready)) + front_ids(later, n),
{
    let fronts = seq![ready] + later;
    assert forall|k: u64| (completed + front_ids(fronts, n + 1)).contains(k)
        implies ((completed + plan_ids(ready)) + front_ids(later, n)).contains(k) by {
        if !completed.contains(k) {
            let (a, b) = choose|a: int, b: int| 0 <= a < n + 1 && 0 <= b < fronts[a].len() && #[trigger] fronts[a][b].instance_id.0 == k;
            if a == 0 {
                assert(ready[b].instance_id.0 == k);
                assert(plan_ids(ready).contains(k));
            } else {
                assert(later[a - 1][b] == fronts[a][b]);
                assert(front_ids(later, n).contains(k));
            }
        }
    }
    assert forall|k: u64| ((completed + plan_ids(ready)) + front_ids(later, n)).contains(k)
        implies (completed + front_ids(fronts, n + 1)).contains(k) by {
        if !completed.contains(k) {
            if plan_ids(ready).contains(k) {
                let b = choose|b: int| 0 <= b < ready.len() && ready[b].instance_id.0 == k;
                assert(fronts[0][b] == ready[b]);
                assert(front_ids(fronts, n + 1).contains(k));
            } else {
                let (a, b) = choose|a: int, b: int| 0 <= a < n && 0 <= b < later[a].len() && #[trigger] later[a][b].instance_id.0 == k;
                assert(fronts[a + 1][b] == later[a][b]);
                assert(front_ids(fronts, n + 1).contains(k));
            }
        }
    }
    assert((completed + front_ids(fronts, n + 1)) =~= ((completed + plan_ids(ready)) + front_ids(later, n)));
}

/// No front is empty.
pub proof fn law_fronts_nonempty(plans: Seq<PlanView>, completed: Set<u64>, i: int)
    requires
        0 <= i < fronts_from(plans, completed).len(),
    ensures
        fronts_from(plans, completed)[i].len() > 0,
    decreases plans.len(),
{
    let ready = plans.filter(ready_in(completed));
    let rest = plans.filter(waiting_in(completed));
    crate::resolution::lemma_filter_partition(plans, ready_in(completed), waiting_in(completed));
    let later = fronts_from(rest, completed + plan_ids(ready));
    assert(fronts_from(plans, completed) == seq![ready] + later);
    if i > 0 {
        law_fronts_nonempty(rest, completed + plan_ids(ready), i - 1);
        assert(fronts_from(plans, completed)[i] == later[i - 1]);
    }
}

/// Each plan stands in the earliest front its dependencies allow: it is ready
/// once the earlier fronts are done, and was not ready one front before.
pub proof fn law_fronts_earliest(plans: Seq<PlanView>, completed: Set<u64>, i: int, j: int)
    requires
        0 <= i < fronts_from(plans, completed).len(),
        0 <= j < fronts_from(plans, completed)[i].len(),
    ensures
        plan_ready(completed + front_ids(fronts_from(plans, completed), i), fronts_from(plans, completed)[i][j]),
        i > 0 ==> !plan_ready(completed + front_ids(fronts_from(plans, completed), i - 1), fronts_from(plans, completed)[i][j]),
    decreases plans.len(),
{
    let fronts = fronts_from(plans, completed);
    let ready = plans.filter(ready_in(completed));
    let rest = plans.filter(waiting_in(completed));
    crate::resolution::lemma_filter_partition(plans, ready_in(completed), waiting_in(completed));
    let later = fronts_from(rest, completed + plan_ids(ready));
    assert(fronts == seq![ready] + later);
    if i == 0 {
        plans.lemma_filter_pred(ready_in(completed), j);
        assert(front_ids(fronts, 0) =~= Set::<u64>::empty());
        assert(completed + front_ids(fronts, 0) =~= completed);
    } else {
        let c1 = completed + plan_ids(ready);
        law_fronts_earliest(rest, c1, i - 1, j);
        assert(fronts[i] == later[i - 1]);
        lemma_front_ids_step(ready, later, completed, i - 1);
        if i == 1 {
            crate::consistency::lemma_fronts_members(rest, c1, 0, j);
            let p = later[0][j];
            let q = choose|q: int| 0 <= q < rest.len() && rest[q] == p;
            plans.lemma_filter_pred(waiting_in(completed), q);
            assert(front_ids(fronts, 0) =~= Set::<u64>::empty());
            assert(completed + front_ids(fronts, 0) =~= completed);
        } else {
            lemma_front_ids_step(ready, later, completed, i - 2);
        }
    }
}

/// A plan is left out of every front only when one of its dependencies is
/// neither completed beforehand nor activated by any front: it is missing or
/// lies on a cycle.
pub proof fn law_fronts_leave_out_blocked(plans: Seq<PlanView>, completed: Set<u64>, q: int)
    requires
        0 <= q < plans.len(),
        forall|a: int, b: int| 0 <= a < fronts_from(plans, completed).len() && 0 <= b < fronts_from(plans, completed)[a].len()
            ==> #[trigger] fronts_from(plans, completed)[a][b] != plans[q],
    ensures
        !plan_ready(completed + front_ids(fronts_from(plans, completed), fronts_from(plans, completed).len() as int), plans[q]),
    decreases plans.len(),
{
    let fronts = fronts_from(plans, completed);
    let ready = plans.filter(ready_in(completed));
    let rest = plans.filter(waiting_in(completed));
    let p = plans[q];
    crate::resolution::lemma_filter_partition(plans, ready_in(completed), waiting_in(completed));
    if ready.len() == 0 {
        assert(fronts.len() == 0);
        assert(front_ids(fronts, 0) =~= Set::<u64>::empty());
        assert(completed + front_ids(fronts, 0) =~= completed);
        if plan_ready(completed, p) {
            plans.lemma_filter_contains(ready_in(completed), q);
            assert(false);
        }
    } else {
        let c1 = completed + plan_ids(ready);
        let later = fronts_from(rest, c1);
        assert(fronts == seq![ready] + later);
        if plan_ready(completed, p) {
            plans.lemma_filter_contains(ready_in(completed), q);
            let b = choose|b: int| 0 <= b < ready.len() && ready[b] == p;
            assert(fronts[0][b] == p);
            assert(false);
        }
        plans.lemma_filter_contains(waiting_in(completed), q);
        let r = choose|r: int| 0 <= r < rest.len() && rest[r] == p;
        assert forall|a: int, b: int| 0 <= a < later.len() && 0 <= b < later[a].len() implies #[trigger] later[a][b] != rest[r] by {
            assert(fronts[a + 1][b] == later[a][b]);
        }
        law_fronts_leave_out_blocked(rest, c1, r);
        lemma_front_ids_step(ready, later, completed, later.len() as int);
    }
}

/// A registration that the graph refuses changes neither the graph nor the Runtime identities.
pub proof fn law_refused_registration_changes_nothing(
    g0: GraphState,
    id0: u64,
    new: GraphState,
    id1: u64,
    definition: ComponentDefinition,
    instance_id: ComponentInstanceId,
    r: Result<TransitionOutcome, KernelError>,
)
    requires
        registration_handled(g0, id0, new, id1, definition, instance_id, r),
        registration_error(g0, definition, instance_id) is Some,
    ensures
        new == g0,
        id1 == id0,
        r == Err::<TransitionOutcome, KernelError>(registration_error(g0, definition, instance_id)->0),
{
}

/// Removing an Instance leaves nothing that its lifecycle owned: no occurrence,
/// Runtime, Definition, Effect, Room or Subscription of it remains, and every
/// consumer that lost it is Pending again.
pub proof fn law_removal_releases_instance(g0: GraphState, new: GraphState, id: ComponentInstanceId, plan: RemovalPlan)
    requires
        g0.wf(),
        g0.instances@.contains_key(id.0),
        removal_planned(g0, id, &plan),
        removal_applied(g0, new, &plan),
    ensures
        !new.instances@.contains_key(id.0),
        !new.runtimes@.contains_key(id.0),
        !new.definitions@.contains_key(g0.instances@[id.0].definition_id.0),
        forall|k: u64| #[trigger] new.effects@.contains_key(k) ==> new.effects@[k].owner != id,
        forall|a: u64| #[trigger] new.rooms@.contains_key(a) ==> new.rooms@[a].owner != id,
        forall|i: int| 0 <= i < new.subscriptions@.len() ==> (#[trigger] new.subscriptions@[i]).subscriber != id,
        forall|k: u64| #[trigger] new.instances@.contains_key(k) && plan_consumer(&plan, k) ==> new.instances@[k].resolution == ResolutionState::Pending,
{
    assert(plan_released(&plan, id.0));
    assert forall|k: u64| #[trigger] new.effects@.contains_key(k) implies new.effects@[k].owner != id by {
        let e = g0.effects@[k];
        if e.owner == id {
            g0.effects.lemma_view();
            let j = choose|j: int| 0 <= j < g0.effects.seq().len() && g0.effects.seq()[j].spec_key() == k;
            assert(g0.effects.seq()[j] == e);
            let p = |x: Effect| x.owner == id;
            g0.effects.seq().lemma_filter_contains(p, j);
            let f = g0.effects.seq().filter(p);
            let q = choose|q: int| 0 <= q < f.len() && f[q] == e;
            assert(owned_effects(g0, id)[q] == e.id);
            assert(plan.effects@[q].0 == k);
            assert(plan_drops_effect(&plan, k));
        }
    }
    assert forall|i: int| 0 <= i < new.subscriptions@.len() implies (#[trigger] new.subscriptions@[i]).subscriber != id by {
        g0.subscriptions@.lemma_filter_pred(|s: Subscription| !plan_released(&plan, s.subscriber.0), i);
    }
}


/// No Capability of the graph implements `contract`, so no Requirement on it has a candidate.
pub proof fn lemma_no_candidate(g: GraphState, cs: Set<u64>, contract: CapabilityContractId)
    requires
        g.wf(),
        forall|k: u64| #[trigger] g.capabilities@.contains_key(k) ==> g.capabilities@[k].capability.contract != contract,
    ensures
        compatible_candidates(g, contract, cs).len() == 0,
{
    let s = g.capabilities.seq();
    let p = eligible_for(g, contract, cs);
    if s.filter(p).len() > 0 {
        s.lemma_filter_pred(p, 0);
        s.lemma_filter_contains_rev(p, s.filter(p)[0]);
        let idx = choose|idx: int| 0 <= idx < s.len() && s[idx] == s.filter(p)[0];
        g.capabilities.lemma_view();
        assert(g.capabilities@.contains_key(s[idx].spec_key()));
        assert(g.capabilities@[s[idx].spec_key()] == s[idx]);
    }
}

/// The Instance of an unsatisfiable registration has no allow-all plan.
pub proof fn lemma_unsatisfiable_not_planned(
    g0: GraphState,
    g1: GraphState,
    definition: ComponentDefinition,
    instance_id: ComponentInstanceId,
    j: int,
    cs: Set<u64>,
)
    requires
        g1.wf(),
        registered(g0, g1, definition, instance_id),
        0 <= j < definition.requirements@.len(),
        forall|k: u64| #[trigger] g0.capabilities@.contains_key(k) ==> g0.capabilities@[k].capability.contract != definition.requirements@[j].contract,
        forall|i: int| 0 <= i < definition.capabilities@.len() ==> #[trigger] definition.capabilities@[i].contract != definition.requirements@[j].contract,
    ensures
        !default_plan_exists(g1, cs, instance_id.0),
{
    let c = definition.requirements@[j].contract;
    let placements = placements_of(definition.capabilities@, instance_id);
    assert forall|k: u64| #[trigger] g1.capabilities@.contains_key(k) implies g1.capabilities@[k].capability.contract != c by {
        if seq_to_map(placements).contains_key(k) {
            crate::consistency::lemma_seq_to_map_values(placements, k);
            let i = choose|i: int| 0 <= i < placements.len() && placements[i] == seq_to_map(placements)[k] && placements[i].spec_key() == k;
            assert(placements[i].capability == definition.capabilities@[i]);
        }
    }
    lemma_no_candidate(g1, cs, c);
    let reqs = requirements_of(g1, instance_id.0);
    assert(reqs == definition.requirements@);
    if default_plan_exists(g1, cs, instance_id.0) {
        assert(default_binding(g1, reqs[j], cs) is Some);
    }
}

/// Activations of other Instances whose Bindings avoid the identities `rids` leave an Instance, its Runtime and those Bindings as they were.
pub proof fn lemma_chain_spares_instance(gs: Seq<GraphState>, plans: Seq<PlanView>, first: u64, instance_id: ComponentInstanceId, rids: Seq<Requirement>, m: int)
    requires
        activation_chain(gs, plans, first),
        0 <= m <= plans.len(),
        forall|q: int| 0 <= q < plans.len() ==> (#[trigger] plans[q]).instance_id != instance_id,
        forall|q: int, i: int, x: int| 0 <= q < plans.len() && 0 <= i < plans[q].bindings.len() && 0 <= x < rids.len()
            ==> (#[trigger] plans[q].bindings[i]).requirement != (#[trigger] rids[x]).id,
    ensures
        gs[m].instances@.contains_key(instance_id.0) == gs[0].instances@.contains_key(instance_id.0),
        gs[m].instances@[instance_id.0] == gs[0].instances@[instance_id.0],
        gs[m].runtimes@.contains_key(instance_id.0) == gs[0].runtimes@.contains_key(instance_id.0),
        forall|x: int| 0 <= x < rids.len() ==> gs[m].bindings@.contains_key((#[trigger] rids[x]).id.0) == gs[0].bindings@.contains_key(rids[x].id.0),
    decreases m,
{
    if m > 0 {
        lemma_chain_spares_instance(gs, plans, first, instance_id, rids, m - 1);
        let prev = gs[m - 1];
        let next = gs[m];
        let plan = plans[m - 1];
        assert(activation_applied(gs[m - 1], gs[m - 1 + 1], plans[m - 1], ComponentRuntimeId((first + (m - 1)) as u64)));
        assert(plan.instance_id != instance_id);
        crate::consistency::lemma_insert_all_keys(prev.bindings@, plan.bindings);
        assert forall|x: int| 0 <= x < rids.len() implies next.bindings@.contains_key((#[trigger] rids[x]).id.0) == prev.bindings@.contains_key(rids[x].id.0) by {
            assert forall|i: int| 0 <= i < plan.bindings.len() implies plan.bindings[i].spec_key() != rids[x].id.0 by {
                assert(plans[m - 1].bindings[i].requirement != rids[x].id);
            }
        }
        if prev.instances@.contains_key(plan.instance_id.0) {
            assert(next.runtimes@.dom().contains(instance_id.0) == prev.runtimes@.dom().contains(instance_id.0));
        }
    }
}

/// A registration whose necessary Requirement no Capability of the graph or of
/// the registered Definition implements leaves its Instance Pending, without a
/// Binding for any of its Requirements and without a Component Runtime,
/// whatever the Driver answers.
pub proof fn law_unsatisfied_registration_stays_pending(
    g0: GraphState,
    id0: u64,
    new: GraphState,
    id1: u64,
    definition: ComponentDefinition,
    instance_id: ComponentInstanceId,
    r: Result<TransitionOutcome, KernelError>,
    j: int,
)
    requires
        g0.wf(),
        g0.consistent(),
        registration_handled(g0, id0, new, id1, definition, instance_id, r),
        registration_error(g0, definition, instance_id) is None,
        0 <= j < definition.requirements@.len(),
        forall|k: u64| #[trigger] g0.capabilities@.contains_key(k) ==> g0.capabilities@[k].capability.contract != definition.requirements@[j].contract,
        forall|i: int| 0 <= i < definition.capabilities@.len() ==> #[trigger] definition.capabilities@[i].contract != definition.requirements@[j].contract,
    ensures
        new.instances@.contains_key(instance_id.0),
        new.instances@[instance_id.0].resolution == ResolutionState::Pending,
        !new.runtimes@.contains_key(instance_id.0),
        forall|i: int| 0 <= i < definition.requirements@.len() ==> !new.bindings@.contains_key((#[trigger] definition.requirements@[i]).id.0),
{
    let (g1, order, t, b, res) = choose|g1: GraphState, order: Seq<PlanView>, t: Seq<LifecycleTransition>, b: Seq<Binding>, res: Result<(), KernelError>| {
        &&& registered(g0, g1, definition, instance_id)
        &&& activation_order(g1, instance_id, order)
        &&& activations_started(g1, id0, new, id1, order, seq![registered_transition(instance_id)], t, Seq::empty(), b, res)
        &&& match res {
            Ok(_) => r matches Ok(o) && o.transitions@ == t && o.created_bindings@ == b,
            Err(e) => r == Err::<TransitionOutcome, KernelError>(e),
        }
    };
    crate::consistency::lemma_registered_consistent(g0, g1, definition, instance_id);
    let (cs, ps) = choose|cs: Set<u64>, ps: Seq<PlanView>| is_affected_closure(g1, instance_id.0, cs) && default_plans(g1, cs, ps)
        && order == flat_fronts(fronts_from(ps, Set::<u64>::empty()));
    let (gs, n) = choose|gs: Seq<GraphState>, n: int| {
        &&& 0 <= n <= order.len()
        &&& gs[0] == g1
        &&& activation_chain(gs, order.take(n), id0)
        &&& new == gs[n]
        &&& id1 == id0 + n
        &&& t == seq![registered_transition(instance_id)] + plan_transitions(order.take(n))
        &&& b == Seq::<Binding>::empty() + plan_bindings(order.take(n))
        &&& n == order.len() ==> res is Ok
        &&& n < order.len() ==> (res matches Err(e) && start_failure(e, order[n], id0 + n))
    };
    lemma_unsatisfiable_not_planned(g0, g1, definition, instance_id, j, cs);
    let prefix = order.take(n);
    let rids = definition.requirements@;
    let fs = fronts_from(ps, Set::<u64>::empty());
    assert forall|q: int| 0 <= q < prefix.len() implies (#[trigger] prefix[q]).instance_id != instance_id && (forall|i: int, x: int|
        0 <= i < prefix[q].bindings.len() && 0 <= x < rids.len() ==> prefix[q].bindings[i].requirement != rids[x].id) by {
        crate::consistency::lemma_flat_fronts_members(fs, q);
        let (a, c) = choose|a: int, c: int| 0 <= a < fs.len() && 0 <= c < fs[a].len() && fs[a][c] == flat_fronts(fs)[q];
        crate::consistency::lemma_fronts_members(ps, Set::<u64>::empty(), a, c);
        let p = prefix[q];
        let idx = choose|idx: int| 0 <= idx < ps.len() && ps[idx] == p;
        let k = p.instance_id.0;
        assert(default_plan_exists(g1, cs, ps[idx].instance_id.0) && is_default_plan(g1, cs, ps[idx].instance_id.0, ps[idx]));
        assert(k != instance_id.0);
        let reqs = requirements_of(g1, k);
        assert forall|i: int, x: int| 0 <= i < p.bindings.len() && 0 <= x < rids.len() implies p.bindings[i].requirement != rids[x].id by {
            assert(default_binding(g1, reqs[i], cs) is Some);
            assert(p.bindings[i].requirement == reqs[i].id);
            let dk = g1.instances@[k].definition_id.0;
            assert(g1.instances@.contains_key(instance_id.0));
            assert(g1.instances@[instance_id.0].definition_id != g1.instances@[k].definition_id);
            assert(g1.definitions@[dk].requirements@[i] == reqs[i]);
            assert(g1.definitions@[definition.id.0].requirements@[x] == rids[x]);
        }
    }
    lemma_chain_spares_instance(gs, prefix, id0, instance_id, rids, n);
    assert(!g0.instances@.contains_key(instance_id.0));
    assert forall|x: int| 0 <= x < rids.len() implies !g1.bindings@.contains_key((#[trigger] rids[x]).id.0) by {
        if g0.bindings@.contains_key(rids[x].id.0) {
            assert(requirement_conflicts(g0, rids)(x));
            assert(first_where(rids.len() as int, requirement_conflicts(g0, rids)) is Some);
        }
    }
}


/// Binding `b` resolves `req` to a Capability of the graph that implements the Requirement's contract.
pub open spec fn binding_fits(g: GraphState, req: Requirement, b: Binding) -> bool {
    &&& b.requirement == req.id
    &&& g.capabilities@.contains_key(b.capability.0)
    &&& g.capabilities@[b.capability.0].capability.contract == req.contract
    &&& g.capabilities@[b.capability.0].provider_id == b.provider
}

/// The graph binds `req` to a compatible Capability.
pub open spec fn requirement_bound(g: GraphState, req: Requirement) -> bool {
    g.bindings@.contains_key(req.id.0) && binding_fits(g, req, g.bindings@[req.id.0])
}

/// Instance `k` is Active in `g` and was not Active in `before`.
pub open spec fn became_active(before: GraphState, g: GraphState, k: u64) -> bool {
    &&& g.instances@.contains_key(k)
    &&& g.instances@[k].resolution == ResolutionState::Active
    &&& !(before.instances@.contains_key(k) && before.instances@[k].resolution == ResolutionState::Active)
}

/// Instance `k` has a Runtime whose identity lies in `[first, last)`, and every Requirement of its Definition is bound compatibly.
pub open spec fn activation_backed(g: GraphState, k: u64, first: int, last: int) -> bool {
    &&& g.runtimes@.contains_key(k)
    &&& first <= g.runtimes@[k].id.0 < last
    &&& forall|i: int| 0 <= i < requirements_of(g, k).len() ==> #[trigger] requirement_bound(g, requirements_of(g, k)[i])
}

/// Plan `q`, one of the first `m`, activates Instance `k` with Runtime identity `id == first + q`.
pub open spec fn activated_by(plans: Seq<PlanView>, first: int, m: int, k: u64, id: int) -> bool {
    exists|q: int| 0 <= q < m && (#[trigger] plans[q]).instance_id.0 == k && id == first + q
}

/// The reported transitions include the activation of Instance `k`.
pub open spec fn reports_activation(transitions: Seq<LifecycleTransition>, k: u64) -> bool {
    exists|i: int| 0 <= i < transitions.len() && #[trigger] transitions[i] == activated_transition(ComponentInstanceId(k))
}

/// The allow-all Binding of a Requirement selects a Capability of the graph that implements its contract.
pub proof fn lemma_default_binding_fits(g: GraphState, req: Requirement, cs: Set<u64>)
    requires
        g.capabilities.wf(),
        default_binding(g, req, cs) is Some,
    ensures
        binding_fits(g, req, default_binding(g, req, cs)->0),
{
    let s = g.capabilities.seq();
    let p = eligible_for(g, req.contract, cs);
    let f = s.filter(p);
    let cands = compatible_candidates(g, req.contract, cs);
    let c = default_candidate(g, cands)->0;
    let idx: int = choose|idx: int| 0 <= idx < cands.len() && cands[idx] == c;
    assert(exists|idx: int| 0 <= idx < cands.len() && cands[idx] == c) by {
        let pa = |i: int| candidate_active(g, cands[i]);
        let a = first_where(cands.len() as int, pa);
        crate::search::lemma_first_where_found(cands.len() as int, pa);
        if a is Some {
            assert(0 <= a->0 < cands.len() && cands[a->0] == c);
        } else {
            assert(0 < cands.len() && cands[0] == c);
        }
    }
    assert(cands[idx] == candidate_of(f[idx]));
    s.lemma_filter_pred(p, idx);
    s.lemma_filter_contains_rev(p, f[idx]);
    let j = choose|j: int| 0 <= j < s.len() && s[j] == f[idx];
    g.capabilities.lemma_view();
    assert(g.capabilities@.contains_key(s[j].spec_key()));
}

/// After one activation step of an allow-all plan, a Requirement of a living
/// Instance is bound compatibly if it was before, or if the step activated that Instance.
pub proof fn lemma_step_binds_requirement(
    g1: GraphState,
    cs: Set<u64>,
    prev: GraphState,
    next: GraphState,
    p: PlanView,
    k: u64,
    i: int,
)
    requires
        g1.wf(),
        g1.consistent(),
        default_plan_exists(g1, cs, p.instance_id.0),
        is_default_plan(g1, cs, p.instance_id.0, p),
        g1.instances@.contains_key(k),
        0 <= i < requirements_of(g1, k).len(),
        next.bindings@ == insert_all(prev.bindings@, p.bindings),
        prev.capabilities@ == g1.capabilities@,
        next.capabilities@ == g1.capabilities@,
        requirement_bound(prev, requirements_of(g1, k)[i]) || k == p.instance_id.0,
    ensures
        requirement_bound(next, requirements_of(g1, k)[i]),
{
    let pk = p.instance_id.0;
    let req = requirements_of(g1, k)[i];
    let reqs = requirements_of(g1, pk);
    let key = req.id.0;
    crate::consistency::lemma_insert_all_keys(prev.bindings@, p.bindings);
    if exists|j: int| 0 <= j < p.bindings.len() && p.bindings[j].spec_key() == key {
        let j0 = choose|j: int| 0 <= j < p.bindings.len() && p.bindings[j].spec_key() == key;
        let j = crate::consistency::lemma_insert_all_value(prev.bindings@, p.bindings, j0);
        assert(default_binding(g1, reqs[j], cs) is Some);
        assert(p.bindings[j] == default_binding(g1, reqs[j], cs)->0);
        assert(p.bindings[j].requirement == reqs[j].id);
        let dk = g1.instances@[k].definition_id.0;
        let dp = g1.instances@[pk].definition_id.0;
        assert(g1.definitions@[dk].requirements@[i] == req);
        assert(g1.definitions@[dp].requirements@[j] == reqs[j]);
        if dk != dp {
            assert(g1.definitions@[dk].requirements@[i].id != g1.definitions@[dp].requirements@[j].id);
        } else if i < j {
            assert(g1.definitions@[dk].requirements@[i].id != g1.definitions@[dk].requirements@[j].id);
        } else if j < i {
            assert(g1.definitions@[dk].requirements@[j].id != g1.definitions@[dk].requirements@[i].id);
        }
        assert(reqs[j] == req);
        lemma_default_binding_fits(g1, req, cs);
    } else if k == pk {
        assert(default_binding(g1, reqs[i], cs) is Some);
        assert(p.bindings[i] == default_binding(g1, reqs[i], cs)->0);
        assert(p.bindings[i].spec_key() == key);
    }
}

/// After one activation step, an Instance that became Active has a Runtime handed out so far.
pub proof fn lemma_step_runtime(g1: GraphState, prev: GraphState, next: GraphState, p: PlanView, first: int, m: int, k: u64)
    requires
        1 <= m,
        0 <= first + m - 1 <= u64::MAX,
        activation_applied(prev, next, p, ComponentRuntimeId((first + m - 1) as u64)),
        became_active(g1, prev, k) ==> prev.runtimes@.contains_key(k) && first <= prev.runtimes@[k].id.0 < first + m - 1,
        became_active(g1, next, k),
    ensures
        next.runtimes@.contains_key(k),
        first <= next.runtimes@[k].id.0 < first + m,
{
    let pk = p.instance_id.0;
    let rid = ComponentRuntimeId((first + m - 1) as u64);
    if prev.instances@.contains_key(pk) {
        if k == pk {
            let policy = choose|policy: MailboxPolicy| declared_mailbox_policy(prev, pk, policy)
                && fresh_runtime(next.runtimes@[pk], rid, p.instance_id, policy);
            assert(next.runtimes@.dom().contains(k));
            assert(next.runtimes@[k].id == rid);
        } else {
            assert(prev.instances@[k] == next.instances@[k]);
            assert(became_active(g1, prev, k));
            assert(prev.runtimes@.contains_key(k));
            assert(next.runtimes@[k] == prev.runtimes@[k]);
            assert(next.runtimes@.dom().contains(k));
        }
    } else {
        assert(became_active(g1, prev, k));
    }
}

/// One allow-all activation step keeps every Instance that became Active backed by a Runtime and compatible Bindings.
pub proof fn lemma_step_backs_activation(
    g1: GraphState,
    cs: Set<u64>,
    prev: GraphState,
    next: GraphState,
    p: PlanView,
    first: int,
    m: int,
    k: u64,
)
    requires
        g1.wf(),
        g1.consistent(),
        default_plan_exists(g1, cs, p.instance_id.0),
        is_default_plan(g1, cs, p.instance_id.0, p),
        1 <= m,
        0 <= first + m - 1 <= u64::MAX,
        activation_applied(prev, next, p, ComponentRuntimeId((first + m - 1) as u64)),
        prev.definitions@ == g1.definitions@,
        prev.capabilities@ == g1.capabilities@,
        prev.instances@.contains_key(k) == g1.instances@.contains_key(k),
        prev.instances@.contains_key(k) ==> prev.instances@[k].definition_id == g1.instances@[k].definition_id,
        became_active(g1, prev, k) ==> activation_backed(prev, k, first, first + m - 1),
        became_active(g1, next, k),
    ensures
        activation_backed(next, k, first, first + m),
{
    let earlier = became_active(g1, prev, k);
    lemma_step_runtime(g1, prev, next, p, first, m, k);
    assert(requirements_of(next, k) == requirements_of(g1, k));
    assert forall|i: int| 0 <= i < requirements_of(next, k).len() implies #[trigger] requirement_bound(next, requirements_of(next, k)[i]) by {
        if earlier {
            assert(requirements_of(prev, k) == requirements_of(g1, k));
            assert(requirement_bound(prev, requirements_of(prev, k)[i]));
        }
        lemma_step_binds_requirement(g1, cs, prev, next, p, k, i);
    }
}

/// After activation step `m`, an Instance that became Active holds the Runtime of the plan that activated it last.
pub proof fn lemma_step_activated_by(g1: GraphState, prev: GraphState, next: GraphState, plans: Seq<PlanView>, first: u64, m: int, k: u64)
    requires
        1 <= m <= plans.len(),
        first + m - 1 <= u64::MAX,
        activation_applied(prev, next, plans[m - 1], ComponentRuntimeId((first + (m - 1)) as u64)),
        became_active(g1, prev, k) ==> prev.runtimes@.contains_key(k) && activated_by(plans, first as int, m - 1, k, prev.runtimes@[k].id.0 as int),
        became_active(g1, next, k),
    ensures
        activated_by(plans, first as int, m, k, next.runtimes@[k].id.0 as int),
{
    let p = plans[m - 1];
    let rid = ComponentRuntimeId((first + (m - 1)) as u64);
    if prev.instances@.contains_key(p.instance_id.0) && k == p.instance_id.0 {
        let policy = choose|policy: MailboxPolicy| declared_mailbox_policy(prev, k, policy)
            && fresh_runtime(next.runtimes@[k], rid, p.instance_id, policy);
        assert(plans[m - 1].instance_id.0 == k && next.runtimes@[k].id.0 == first + (m - 1));
    } else {
        assert(became_active(g1, prev, k));
        assert(next.runtimes@[k] == prev.runtimes@[k]);
        let q = choose|q: int| 0 <= q < m - 1 && (#[trigger] plans[q]).instance_id.0 == k && prev.runtimes@[k].id.0 == first + q;
        assert(plans[q].instance_id.0 == k);
    }
}

/// Along a chain of allow-all activations, every Instance that becomes Active
/// holds a Runtime handed out in the chain and compatible Bindings for all its Requirements.
#[verifier::spinoff_prover]
#[verifier::rlimit(50)]
pub proof fn lemma_chain_backs_activations(gs: Seq<GraphState>, plans: Seq<PlanView>, first: u64, cs: Set<u64>, m: int)
    requires
        activation_chain(gs, plans, first),
        0 <= m <= plans.len(),
        gs[0].wf(),
        gs[0].consistent(),
        forall|q: int| 0 <= q < plans.len() ==> default_plan_exists(gs[0], cs, (#[trigger] plans[q]).instance_id.0)
            && is_default_plan(gs[0], cs, plans[q].instance_id.0, plans[q]),
    ensures
        gs[m].definitions@ == gs[0].definitions@,
        gs[m].capabilities@ == gs[0].capabilities@,
        forall|k: u64| #[trigger] gs[m].instances@.contains_key(k) == gs[0].instances@.contains_key(k),
        forall|k: u64| #[trigger] gs[m].instances@.contains_key(k) ==> gs[m].instances@[k].definition_id == gs[0].instances@[k].definition_id,
        forall|k: u64| #[trigger] became_active(gs[0], gs[m], k) ==> activation_backed(gs[m], k, first as int, first + m)
            && activated_by(plans, first as int, m, k, gs[m].runtimes@[k].id.0 as int),
    decreases m,
{
    if m > 0 {
        lemma_chain_backs_activations(gs, plans, first, cs, m - 1);
        let g1 = gs[0];
        let prev = gs[m - 1];
        let next = gs[m];
        let p = plans[m - 1];
        assert(activation_applied(gs[m - 1], gs[m - 1 + 1], plans[m - 1], ComponentRuntimeId((first + (m - 1)) as u64)));
        assert(default_plan_exists(g1, cs, p.instance_id.0) && is_default_plan(g1, cs, p.instance_id.0, p));
        assert forall|k: u64| #[trigger] became_active(g1, next, k) implies activation_backed(next, k, first as int, first + m)
            && activated_by(plans, first as int, m, k, next.runtimes@[k].id.0 as int) by {
            lemma_step_backs_activation(g1, cs, prev, next, p, first as int, m, k);
            lemma_step_activated_by(g1, prev, next, plans, first, m, k);
        }
    }
}

/// An Instance becomes Active only after compatible Bindings were selected and
/// the Driver started its Runtime: an Instance that a registration leaves
/// Active, and that was not Active before, has a Runtime whose identity was
/// handed out by this registration and a Binding to a Capability implementing
/// the contract of each Requirement of its Definition; a successful outcome
/// reports that activation.
pub proof fn law_activation_backed_by_bindings_and_runtime(
    g0: GraphState,
    id0: u64,
    new: GraphState,
    id1: u64,
    definition: ComponentDefinition,
    instance_id: ComponentInstanceId,
    r: Result<TransitionOutcome, KernelError>,
    k: u64,
)
    requires
        g0.wf(),
        g0.consistent(),
        registration_handled(g0, id0, new, id1, definition, instance_id, r),
        became_active(g0, new, k),
    ensures
        activation_backed(new, k, id0 as int, id1 as int),
        r matches Ok(o) ==> reports_activation(o.transitions@, k),
{
    if registration_error(g0, definition, instance_id) is None {
        let (g1, order, t, b, res) = choose|g1: GraphState, order: Seq<PlanView>, t: Seq<LifecycleTransition>, b: Seq<Binding>, res: Result<(), KernelError>| {
            &&& registered(g0, g1, definition, instance_id)
            &&& activation_order(g1, instance_id, order)
            &&& activations_started(g1, id0, new, id1, order, seq![registered_transition(instance_id)], t, Seq::empty(), b, res)
            &&& match res {
                Ok(_) => r matches Ok(o) && o.transitions@ == t && o.created_bindings@ == b,
                Err(e) => r == Err::<TransitionOutcome, KernelError>(e),
            }
        };
        crate::consistency::lemma_registered_consistent(g0, g1, definition, instance_id);
        let (cs, ps) = choose|cs: Set<u64>, ps: Seq<PlanView>| is_affected_closure(g1, instance_id.0, cs) && default_plans(g1, cs, ps)
            && order == flat_fronts(fronts_from(ps, Set::<u64>::empty()));
        let (gs, n) = choose|gs: Seq<GraphState>, n: int| {
            &&& 0 <= n <= order.len()
            &&& gs[0] == g1
            &&& activation_chain(gs, order.take(n), id0)
            &&& new == gs[n]
            &&& id1 == id0 + n
            &&& t == seq![registered_transition(instance_id)] + plan_transitions(order.take(n))
            &&& b == Seq::<Binding>::empty() + plan_bindings(order.take(n))
            &&& n == order.len() ==> res is Ok
            &&& n < order.len() ==> (res matches Err(e) && start_failure(e, order[n], id0 + n))
        };
        let prefix = order.take(n);
        let fs = fronts_from(ps, Set::<u64>::empty());
        assert forall|q: int| 0 <= q < prefix.len() implies default_plan_exists(g1, cs, (#[trigger] prefix[q]).instance_id.0)
            && is_default_plan(g1, cs, prefix[q].instance_id.0, prefix[q]) by {
            crate::consistency::lemma_flat_fronts_members(fs, q);
            let (a, c) = choose|a: int, c: int| 0 <= a < fs.len() && 0 <= c < fs[a].len() && fs[a][c] == flat_fronts(fs)[q];
            crate::consistency::lemma_fronts_members(ps, Set::<u64>::empty(), a, c);
            let idx = choose|idx: int| 0 <= idx < ps.len() && ps[idx] == prefix[q];
            assert(default_plan_exists(g1, cs, ps[idx].instance_id.0) && is_default_plan(g1, cs, ps[idx].instance_id.0, ps[idx]));
        }
        lemma_chain_backs_activations(gs, prefix, id0, cs, n);
        if g1.instances@.contains_key(k) && g1.instances@[k].resolution == ResolutionState::Active {
            assert(k != instance_id.0);
        }
        assert(became_active(g1, new, k));
        let q = choose|q: int| 0 <= q < n && (#[trigger] prefix[q]).instance_id.0 == k && new.runtimes@[k].id.0 == id0 + q;
        if res is Ok {
            assert(t[q + 1] == activated_transition(ComponentInstanceId(k)));
        }
    }
}


/// Along a chain of activations, a Runtime is either one that was there before, unchanged, or one started in the chain.
pub proof fn lemma_chain_fresh_runtimes(gs: Seq<GraphState>, plans: Seq<PlanView>, first: u64, m: int)
    requires
        activation_chain(gs, plans, first),
        0 <= m <= plans.len(),
    ensures
        forall|k: u64| #[trigger] gs[m].runtimes@.contains_key(k) ==> (gs[0].runtimes@.contains_key(k) && gs[m].runtimes@[k] == gs[0].runtimes@[k])
            || (first <= gs[m].runtimes@[k].id.0 < first + m),
    decreases m,
{
    if m > 0 {
        lemma_chain_fresh_runtimes(gs, plans, first, m - 1);
        let prev = gs[m - 1];
        let next = gs[m];
        let p = plans[m - 1];
        let pk = p.instance_id.0;
        let rid = ComponentRuntimeId((first + (m - 1)) as u64);
        assert(activation_applied(gs[m - 1], gs[m - 1 + 1], plans[m - 1], rid));
        if prev.instances@.contains_key(pk) {
            let policy = choose|policy: MailboxPolicy| declared_mailbox_policy(prev, pk, policy)
                && fresh_runtime(next.runtimes@[pk], rid, p.instance_id, policy);
            assert forall|k: u64| #[trigger] next.runtimes@.contains_key(k) implies (gs[0].runtimes@.contains_key(k) && next.runtimes@[k] == gs[0].runtimes@[k])
                || (first <= next.runtimes@[k].id.0 < first + m) by {
                assert(next.runtimes@.dom().contains(k));
                if k != pk {
                    assert(prev.runtimes@.contains_key(k));
                }
            }
        }
    }
}

/// A registration starts Runtimes only with identities it hands out itself:
/// every Runtime it leaves that was not there before, unchanged, has an
/// identity at or above the next identity before the Event, so no identity of
/// an earlier Runtime is used again.
pub proof fn law_registration_runtimes_fresh(
    g0: GraphState,
    id0: u64,
    new: GraphState,
    id1: u64,
    definition: ComponentDefinition,
    instance_id: ComponentInstanceId,
    r: Result<TransitionOutcome, KernelError>,
    k: u64,
)
    requires
        registration_handled(g0, id0, new, id1, definition, instance_id, r),
        new.runtimes@.contains_key(k),
        !(g0.runtimes@.contains_key(k) && new.runtimes@[k] == g0.runtimes@[k]),
    ensures
        id0 <= new.runtimes@[k].id.0 < id1,
{
    if registration_error(g0, definition, instance_id) is None {
        let (g1, order, t, b, res) = choose|g1: GraphState, order: Seq<PlanView>, t: Seq<LifecycleTransition>, b: Seq<Binding>, res: Result<(), KernelError>| {
            &&& registered(g0, g1, definition, instance_id)
            &&& activation_order(g1, instance_id, order)
            &&& activations_started(g1, id0, new, id1, order, seq![registered_transition(instance_id)], t, Seq::empty(), b, res)
            &&& match res {
                Ok(_) => r matches Ok(o) && o.transitions@ == t && o.created_bindings@ == b,
                Err(e) => r == Err::<TransitionOutcome, KernelError>(e),
            }
        };
        let (gs, n) = choose|gs: Seq<GraphState>, n: int| {
            &&& 0 <= n <= order.len()
            &&& gs[0] == g1
            &&& activation_chain(gs, order.take(n), id0)
            &&& new == gs[n]
            &&& id1 == id0 + n
            &&& t == seq![registered_transition(instance_id)] + plan_transitions(order.take(n))
            &&& b == Seq::<Binding>::empty() + plan_bindings(order.take(n))
            &&& n == order.len() ==> res is Ok
            &&& n < order.len() ==> (res matches Err(e) && start_failure(e, order[n], id0 + n))
        };
        lemma_chain_fresh_runtimes(gs, order.take(n), id0, n);
        assert(g1.runtimes@ == g0.runtimes@);
    }
}


/// Starting from Driver state `d0`, the Driver answered `Ok` to every `start` of a
/// run of activations with identities counted from `first`, and one of those
/// starts was handed Instance `k` and Runtime identity `runtime_id`.
pub open spec fn driver_accepted_start<D: EventLoopDriver>(d0: D, first: u64, k: u64, runtime_id: ComponentRuntimeId) -> bool {
    exists|ds: Seq<D>, plans: Seq<PlanView>, n: int, q: int| {
        &&& #[trigger] starts_answered(ds, plans, first, n)
        &&& ds[0] == d0
        &&& 0 <= q < n
        &&& (#[trigger] plans[q]).instance_id == ComponentInstanceId(k)
        &&& runtime_id == ComponentRuntimeId((first + q) as u64)
    }
}

/// An Instance becomes Active only after the configured Driver has started its
/// Runtime: for an Instance that a registration leaves Active and that was not
/// Active before, the Driver answered `Ok` to a `start` handed that Instance and
/// exactly the Runtime identity the graph records for it.
pub proof fn law_active_after_driver_start<D: EventLoopDriver>(
    g0: GraphState,
    d0: D,
    id0: u64,
    new: GraphState,
    d1: D,
    id1: u64,
    definition: ComponentDefinition,
    instance_id: ComponentInstanceId,
    r: Result<TransitionOutcome, KernelError>,
    k: u64,
)
    requires
        g0.wf(),
        g0.consistent(),
        registration_driven(g0, d0, id0, new, d1, id1, definition, instance_id, r),
        became_active(g0, new, k),
    ensures
        new.runtimes@.contains_key(k),
        driver_accepted_start(d0, id0, k, new.runtimes@[k].id),
{
    if registration_error(g0, definition, instance_id) is None {
        let (g1, order, t, b, res) = choose|g1: GraphState, order: Seq<PlanView>, t: Seq<LifecycleTransition>, b: Seq<Binding>, res: Result<(), KernelError>| {
            &&& registered(g0, g1, definition, instance_id)
            &&& activation_order(g1, instance_id, order)
            &&& activations_driven(g1, d0, id0, new, d1, id1, order, seq![registered_transition(instance_id)], t, Seq::empty(), b, res)
            &&& match res {
                Ok(_) => r matches Ok(o) && o.transitions@ == t && o.created_bindings@ == b,
                Err(e) => r == Err::<TransitionOutcome, KernelError>(e),
            }
        };
        crate::consistency::lemma_registered_consistent(g0, g1, definition, instance_id);
        let (cs, ps) = choose|cs: Set<u64>, ps: Seq<PlanView>| is_affected_closure(g1, instance_id.0, cs) && default_plans(g1, cs, ps)
            && order == flat_fronts(fronts_from(ps, Set::<u64>::empty()));
        let (gs, n) = choose|gs: Seq<GraphState>, n: int| {
            &&& 0 <= n <= order.len()
            &&& gs[0] == g1
            &&& activation_chain(gs, order.take(n), id0)
            &&& new == gs[n]
            &&& id1 == id0 + n
            &&& t == seq![registered_transition(instance_id)] + plan_transitions(order.take(n))
            &&& b == Seq::<Binding>::empty() + plan_bindings(order.take(n))
            &&& n == order.len() ==> res is Ok
            &&& n < order.len() ==> (res matches Err(e) && start_failure(e, order[n], id0 + n))
            &&& driver_started(d0, d1, order, id0, n, res)
        };
        let ds = choose|ds: Seq<D>| {
            &&& starts_answered(ds, order, id0, n)
            &&& ds[0] == d0
            &&& if n < order.len() && id0 + n < u64::MAX {
                start_refused(ds[n], d1, order[n], ComponentRuntimeId((id0 + n) as u64), res)
            } else {
                d1 == ds[n]
            }
        };
        let prefix = order.take(n);
        let fs = fronts_from(ps, Set::<u64>::empty());
        assert forall|q: int| 0 <= q < prefix.len() implies default_plan_exists(g1, cs, (#[trigger] prefix[q]).instance_id.0)
            && is_default_plan(g1, cs, prefix[q].instance_id.0, prefix[q]) by {
            crate::consistency::lemma_flat_fronts_members(fs, q);
            let (a, c) = choose|a: int, c: int| 0 <= a < fs.len() && 0 <= c < fs[a].len() && fs[a][c] == flat_fronts(fs)[q];
            crate::consistency::lemma_fronts_members(ps, Set::<u64>::empty(), a, c);
            let idx = choose|idx: int| 0 <= idx < ps.len() && ps[idx] == prefix[q];
            assert(default_plan_exists(g1, cs, ps[idx].instance_id.0) && is_default_plan(g1, cs, ps[idx].instance_id.0, ps[idx]));
        }
        lemma_chain_backs_activations(gs, prefix, id0, cs, n);
        if g1.instances@.contains_key(k) && g1.instances@[k].resolution == ResolutionState::Active {
            assert(k != instance_id.0);
        }
        assert(became_active(g1, new, k));
        let q = choose|q: int| 0 <= q < n && (#[trigger] prefix[q]).instance_id.0 == k && new.runtimes@[k].id.0 == id0 + q;
        assert(order[q] == prefix[q]);
        assert(order[q].instance_id == ComponentInstanceId(k));
        assert(new.runtimes@[k].id == ComponentRuntimeId((id0 + q) as u64));
        assert(driver_accepted_start(d0, id0, k, new.runtimes@[k].id));
    }
}


/// Every Instance of the affected closure of a registration is the registered one or Pending.
pub proof fn lemma_closure_pending(g: GraphState, seed: u64, cs: Set<u64>)
    requires
        is_affected_closure(g, seed, cs),
    ensures
        forall|k: u64| #[trigger] cs.contains(k) && k != seed && g.instances@.contains_key(k) ==> g.instances@[k].resolution == ResolutionState::Pending,
{
    let s2 = cs.filter(|k: u64| k == seed || (g.instances@.contains_key(k) && g.instances@[k].resolution == ResolutionState::Pending));
    assert forall|k: u64| #[trigger] g.instances@.contains_key(k) && pulled_by(g, s2, g.instances@[k]) implies s2.contains(k) by {
        let inst = g.instances@[k];
        let i = choose|i: int| 0 <= i < g.definitions@[inst.definition_id.0].requirements@.len()
            && contract_provided(g, s2, #[trigger] g.definitions@[inst.definition_id.0].requirements@[i].contract);
        let c = g.definitions@[inst.definition_id.0].requirements@[i].contract;
        let q = choose|q: u64| #[trigger] g.capabilities@.contains_key(q) && s2.contains(g.capabilities@[q].provider_id.0)
            && g.capabilities@[q].capability.contract == c;
        assert(contract_provided(g, cs, c));
        assert(pulled_by(g, cs, inst));
    }
    assert(closed_under(g, s2));
    assert(cs.subset_of(s2));
}

/// Along a chain of activations of living Instances, each activated Instance stays Active and no Instance appears or disappears.
pub proof fn lemma_chain_keeps_active(gs: Seq<GraphState>, plans: Seq<PlanView>, first: u64, m: int)
    requires
        activation_chain(gs, plans, first),
        0 <= m <= plans.len(),
        forall|q: int| 0 <= q < plans.len() ==> gs[0].instances@.contains_key((#[trigger] plans[q]).instance_id.0),
    ensures
        forall|k: u64| #[trigger] gs[m].instances@.contains_key(k) == gs[0].instances@.contains_key(k),
        forall|q: int| 0 <= q < m ==> gs[m].instances@[(#[trigger] plans[q]).instance_id.0].resolution == ResolutionState::Active,
    decreases m,
{
    if m > 0 {
        lemma_chain_keeps_active(gs, plans, first, m - 1);
        let prev = gs[m - 1];
        let next = gs[m];
        let p = plans[m - 1];
        assert(activation_applied(gs[m - 1], gs[m - 1 + 1], plans[m - 1], ComponentRuntimeId((first + (m - 1)) as u64)));
        assert(prev.instances@.contains_key(p.instance_id.0));
        assert forall|q: int| 0 <= q < m implies next.instances@[(#[trigger] plans[q]).instance_id.0].resolution == ResolutionState::Active by {
            if q < m - 1 {
                assert(prev.instances@[plans[q].instance_id.0].resolution == ResolutionState::Active);
            }
        }
    }
}

/// A successful outcome explains every transition of the registration: first
/// the new Instance entering Pending, then one activation per Instance that the
/// registration made Active, each of which was not Active before.
pub proof fn law_outcome_explains_transitions(
    g0: GraphState,
    id0: u64,
    new: GraphState,
    id1: u64,
    definition: ComponentDefinition,
    instance_id: ComponentInstanceId,
    r: Result<TransitionOutcome, KernelError>,
)
    requires
        g0.wf(),
        g0.consistent(),
        registration_handled(g0, id0, new, id1, definition, instance_id, r),
        r is Ok,
    ensures
        r->Ok_0.transitions@.len() >= 1,
        r->Ok_0.transitions@[0] == registered_transition(instance_id),
        forall|i: int| 1 <= i < r->Ok_0.transitions@.len() ==> (#[trigger] r->Ok_0.transitions@[i])
            == activated_transition(r->Ok_0.transitions@[i].instance_id) && became_active(g0, new, r->Ok_0.transitions@[i].instance_id.0),
{
    let (g1, order, t, b, res) = choose|g1: GraphState, order: Seq<PlanView>, t: Seq<LifecycleTransition>, b: Seq<Binding>, res: Result<(), KernelError>| {
        &&& registered(g0, g1, definition, instance_id)
        &&& activation_order(g1, instance_id, order)
        &&& activations_started(g1, id0, new, id1, order, seq![registered_transition(instance_id)], t, Seq::empty(), b, res)
        &&& match res {
            Ok(_) => r matches Ok(o) && o.transitions@ == t && o.created_bindings@ == b,
            Err(e) => r == Err::<TransitionOutcome, KernelError>(e),
        }
    };
    let (cs, ps) = choose|cs: Set<u64>, ps: Seq<PlanView>| is_affected_closure(g1, instance_id.0, cs) && default_plans(g1, cs, ps)
        && order == flat_fronts(fronts_from(ps, Set::<u64>::empty()));
    let (gs, n) = choose|gs: Seq<GraphState>, n: int| {
        &&& 0 <= n <= order.len()
        &&& gs[0] == g1
        &&& activation_chain(gs, order.take(n), id0)
        &&& new == gs[n]
        &&& id1 == id0 + n
        &&& t == seq![registered_transition(instance_id)] + plan_transitions(order.take(n))
        &&& b == Seq::<Binding>::empty() + plan_bindings(order.take(n))
        &&& n == order.len() ==> res is Ok
        &&& n < order.len() ==> (res matches Err(e) && start_failure(e, order[n], id0 + n))
    };
    let prefix = order.take(n);
    let fs = fronts_from(ps, Set::<u64>::empty());
    lemma_closure_pending(g1, instance_id.0, cs);
    assert forall|q: int| 0 <= q < prefix.len() implies cs.contains((#[trigger] prefix[q]).instance_id.0)
        && g1.instances@.contains_key(prefix[q].instance_id.0) by {
        crate::consistency::lemma_flat_fronts_members(fs, q);
        let (a, c) = choose|a: int, c: int| 0 <= a < fs.len() && 0 <= c < fs[a].len() && fs[a][c] == flat_fronts(fs)[q];
        crate::consistency::lemma_fronts_members(ps, Set::<u64>::empty(), a, c);
        let idx = choose|idx: int| 0 <= idx < ps.len() && ps[idx] == prefix[q];
        assert(cs.contains(ps[idx].instance_id.0) && default_plan_exists(g1, cs, ps[idx].instance_id.0));
    }
    lemma_chain_keeps_active(gs, prefix, id0, n);
    let ts = r->Ok_0.transitions@;
    assert forall|i: int| 1 <= i < ts.len() implies (#[trigger] ts[i]) == activated_transition(ts[i].instance_id)
        && became_active(g0, new, ts[i].instance_id.0) by {
        let p = prefix[i - 1];
        assert(ts[i] == activated_transition(p.instance_id));
        let k = p.instance_id.0;
        assert(cs.contains(k) && g1.instances@.contains_key(k));
        if k != instance_id.0 {
            assert(g1.instances@[k].resolution == ResolutionState::Pending);
        }
        assert(new.instances@[k].resolution == ResolutionState::Active);
    }
}

/// Instances that none of the first `m` plans activates keep their record along the chain.
pub proof fn lemma_chain_others_unchanged(gs: Seq<GraphState>, plans: Seq<PlanView>, first: u64, m: int, k: u64)
    requires
        activation_chain(gs, plans, first),
        0 <= m <= plans.len(),
        forall|q: int| 0 <= q < m ==> (#[trigger] plans[q]).instance_id.0 != k,
    ensures
        gs[m].instances@.contains_key(k) == gs[0].instances@.contains_key(k),
        gs[0].instances@.contains_key(k) ==> gs[m].instances@[k] == gs[0].instances@[k],
    decreases m,
{
    if m > 0 {
        lemma_chain_others_unchanged(gs, plans, first, m - 1, k);
        assert(activation_applied(gs[m - 1], gs[m - 1 + 1], plans[m - 1], ComponentRuntimeId((first + (m - 1)) as u64)));
        assert(plans[m - 1].instance_id.0 != k);
    }
}

/// The activations a successful registration reports are exactly the Instances
/// that became Active: every Instance Active afterwards and not before is reported.
pub proof fn law_outcome_reports_every_activation(
    g0: GraphState,
    id0: u64,
    new: GraphState,
    id1: u64,
    definition: ComponentDefinition,
    instance_id: ComponentInstanceId,
    r: Result<TransitionOutcome, KernelError>,
    k: u64,
)
    requires
        g0.wf(),
        g0.consistent(),
        registration_handled(g0, id0, new, id1, definition, instance_id, r),
        r is Ok,
        became_active(g0, new, k),
    ensures
        exists|i: int| 1 <= i < r->Ok_0.transitions@.len() && #[trigger] r->Ok_0.transitions@[i] == activated_transition(ComponentInstanceId(k)),
{
    let (g1, order, t, b, res) = choose|g1: GraphState, order: Seq<PlanView>, t: Seq<LifecycleTransition>, b: Seq<Binding>, res: Result<(), KernelError>| {
        &&& registered(g0, g1, definition, instance_id)
        &&& activation_order(g1, instance_id, order)
        &&& activations_started(g1, id0, new, id1, order, seq![registered_transition(instance_id)], t, Seq::empty(), b, res)
        &&& match res {
            Ok(_) => r matches Ok(o) && o.transitions@ == t && o.created_bindings@ == b,
            Err(e) => r == Err::<TransitionOutcome, KernelError>(e),
        }
    };
    let (gs, n) = choose|gs: Seq<GraphState>, n: int| {
        &&& 0 <= n <= order.len()
        &&& gs[0] == g1
        &&& activation_chain(gs, order.take(n), id0)
        &&& new == gs[n]
        &&& id1 == id0 + n
        &&& t == seq![registered_transition(instance_id)] + plan_transitions(order.take(n))
        &&& b == Seq::<Binding>::empty() + plan_bindings(order.take(n))
        &&& n == order.len() ==> res is Ok
        &&& n < order.len() ==> (res matches Err(e) && start_failure(e, order[n], id0 + n))
    };
    let prefix = order.take(n);
    let ts = r->Ok_0.transitions@;
    if forall|q: int| 0 <= q < n ==> (#[trigger] prefix[q]).instance_id.0 != k {
        lemma_chain_others_unchanged(gs, prefix, id0, n, k);
        if k == instance_id.0 {
            assert(g1.instances@[k].resolution == ResolutionState::Pending);
        } else {
            assert(g1.instances@.contains_key(k) == g0.instances@.contains_key(k));
        }
        assert(false);
    }
    let q = choose|q: int| 0 <= q < n && (#[trigger] prefix[q]).instance_id.0 == k;
    assert(prefix[q].instance_id == ComponentInstanceId(k));
    assert(ts[q + 1] == activated_transition(prefix[q].instance_id));
}

/// Every record that inserting `s` leaves at a key is either the one already
/// there or one of `s`.
pub proof fn lemma_insert_all_from(m: Map<u64, Binding>, s: Seq<Binding>, k: u64)
    requires
        insert_all(m, s).contains_key(k),
    ensures
        (m.contains_key(k) && insert_all(m, s)[k] == m[k]) || exists|i: int| 0 <= i < s.len() && #[trigger] s[i] == insert_all(m, s)[k],
    decreases s.len(),
{
    if s.len() > 0 {
        let t = s.drop_last();
        if s.last().spec_key() == k {
            assert(s[s.len() - 1] == insert_all(m, s)[k]);
        } else {
            lemma_insert_all_from(m, t, k);
            if exists|i: int| 0 <= i < t.len() && #[trigger] t[i] == insert_all(m, t)[k] {
                let i = choose|i: int| 0 <= i < t.len() && #[trigger] t[i] == insert_all(m, t)[k];
                assert(s[i] == t[i]);
            }
        }
    }
}

/// Along a chain of activations, every Binding present at the end is either
/// one present at the start under the same key, or one the plans created.
pub proof fn lemma_chain_bindings_from(gs: Seq<GraphState>, plans: Seq<PlanView>, first: u64, m: int, k: u64)
    requires
        activation_chain(gs, plans, first),
        0 <= m <= plans.len(),
        gs[m].bindings@.contains_key(k),
    ensures
        (gs[0].bindings@.contains_key(k) && gs[m].bindings@[k] == gs[0].bindings@[k])
            || exists|i: int| 0 <= i < plan_bindings(plans.take(m)).len() && #[trigger] plan_bindings(plans.take(m))[i] == gs[m].bindings@[k],
    decreases m,
{
    if m > 0 {
        let prev = gs[m - 1];
        let next = gs[m];
        let p = plans[m - 1];
        assert(activation_applied(gs[m - 1], gs[m - 1 + 1], plans[m - 1], ComponentRuntimeId((first + (m - 1)) as u64)));
        assert(plans.take(m).drop_last() =~= plans.take(m - 1));
        assert(plans.take(m).last() == p);
        let before = plan_bindings(plans.take(m - 1));
        assert(plan_bindings(plans.take(m)) == before + p.bindings);
        lemma_insert_all_from(prev.bindings@, p.bindings, k);
        if exists|i: int| 0 <= i < p.bindings.len() && #[trigger] p.bindings[i] == next.bindings@[k] {
            let i = choose|i: int| 0 <= i < p.bindings.len() && #[trigger] p.bindings[i] == next.bindings@[k];
            assert(plan_bindings(plans.take(m))[before.len() + i] == p.bindings[i]);
        } else {
            lemma_chain_bindings_from(gs, plans, first, m - 1, k);
            if exists|i: int| 0 <= i < before.len() && #[trigger] before[i] == prev.bindings@[k] {
                let i = choose|i: int| 0 <= i < before.len() && #[trigger] before[i] == prev.bindings@[k];
                assert(plan_bindings(plans.take(m))[i] == before[i]);
            }
        }
    }
}

/// Every Binding a successful registration leaves that was not already in
/// place under its Requirement is one the outcome reports as created.
pub proof fn law_outcome_reports_every_new_binding(
    g0: GraphState,
    id0: u64,
    new: GraphState,
    id1: u64,
    definition: ComponentDefinition,
    instance_id: ComponentInstanceId,
    r: Result<TransitionOutcome, KernelError>,
    k: u64,
)
    requires
        registration_handled(g0, id0, new, id1, definition, instance_id, r),
        r is Ok,
        new.bindings@.contains_key(k),
        !(g0.bindings@.contains_key(k) && g0.bindings@[k] == new.bindings@[k]),
    ensures
        exists|i: int| 0 <= i < r->Ok_0.created_bindings@.len() && #[trigger] r->Ok_0.created_bindings@[i] == new.bindings@[k],
{
    let (g1, order, t, b, res) = choose|g1: GraphState, order: Seq<PlanView>, t: Seq<LifecycleTransition>, b: Seq<Binding>, res: Result<(), KernelError>| {
        &&& registered(g0, g1, definition, instance_id)
        &&& activation_order(g1, instance_id, order)
        &&& activations_started(g1, id0, new, id1, order, seq![registered_transition(instance_id)], t, Seq::empty(), b, res)
        &&& match res {
            Ok(_) => r matches Ok(o) && o.transitions@ == t && o.created_bindings@ == b,
            Err(e) => r == Err::<TransitionOutcome, KernelError>(e),
        }
    };
    let (gs, n) = choose|gs: Seq<GraphState>, n: int| {
        &&& 0 <= n <= order.len()
        &&& gs[0] == g1
        &&& activation_chain(gs, order.take(n), id0)
        &&& new == gs[n]
        &&& id1 == id0 + n
        &&& t == seq![registered_transition(instance_id)] + plan_transitions(order.take(n))
        &&& b == Seq::<Binding>::empty() + plan_bindings(order.take(n))
        &&& n == order.len() ==> res is Ok
        &&& n < order.len() ==> (res matches Err(e) && start_failure(e, order[n], id0 + n))
    };
    let prefix = order.take(n);
    assert(prefix.take(n) =~= prefix);
    lemma_chain_bindings_from(gs, prefix, id0, n, k);
    assert(Seq::<Binding>::empty() + plan_bindings(prefix) =~= plan_bindings(prefix));
    let i = choose|i: int| 0 <= i < plan_bindings(prefix.take(n)).len() && #[trigger] plan_bindings(prefix.take(n))[i] == gs[n].bindings@[k];
    assert(r->Ok_0.created_bindings@[i] == new.bindings@[k]);
}

/// No two Bindings of `s` bind the same Requirement.
pub open spec fn bindings_distinct(s: Seq<Binding>) -> bool {
    forall|i: int, j: int| 0 <= i < j < s.len() ==> (#[trigger] s[i]).requirement != (#[trigger] s[j]).requirement
}

/// Inserting two sequences one after the other is inserting their concatenation.
pub proof fn lemma_insert_all_append(m: Map<u64, Binding>, a: Seq<Binding>, b: Seq<Binding>)
    ensures
        insert_all(m, a + b) == insert_all(insert_all(m, a), b),
    decreases b.len(),
{
    if b.len() == 0 {
        assert(a + b =~= a);
    } else {
        lemma_insert_all_append(m, a, b.drop_last());
        assert((a + b).drop_last() =~= a + b.drop_last());
        assert((a + b).last() == b.last());
    }
}

/// Along a chain of activations the Bindings are those at the start with every
/// planned Binding inserted in order.
pub proof fn lemma_chain_bindings(gs: Seq<GraphState>, plans: Seq<PlanView>, first: u64, m: int)
    requires
        activation_chain(gs, plans, first),
        0 <= m <= plans.len(),
    ensures
        gs[m].bindings@ == insert_all(gs[0].bindings@, plan_bindings(plans.take(m))),
    decreases m,
{
    if m == 0 {
        assert(plans.take(0) =~= Seq::<PlanView>::empty());
    } else {
        lemma_chain_bindings(gs, plans, first, m - 1);
        assert(activation_applied(gs[m - 1], gs[m - 1 + 1], plans[m - 1], ComponentRuntimeId((first + (m - 1)) as u64)));
        assert(plans.take(m).drop_last() =~= plans.take(m - 1));
        assert(plans.take(m).last() == plans[m - 1]);
        lemma_insert_all_append(gs[0].bindings@, plan_bindings(plans.take(m - 1)), plans[m - 1].bindings);
    }
}

/// Every Binding of the plans' concatenation is a Binding of one plan.
pub proof fn lemma_plan_bindings_member(plans: Seq<PlanView>, i: int)
    requires
        0 <= i < plan_bindings(plans).len(),
    ensures
        exists|q: int, j: int| 0 <= q < plans.len() && 0 <= j < plans[q].bindings.len() && #[trigger] plans[q].bindings[j] == plan_bindings(plans)[i],
    decreases plans.len(),
{
    let init = plans.drop_last();
    let before = plan_bindings(init);
    if i < before.len() {
        lemma_plan_bindings_member(init, i);
        let (q, j) = choose|q: int, j: int| 0 <= q < init.len() && 0 <= j < init[q].bindings.len() && #[trigger] init[q].bindings[j] == before[i];
        assert(plans[q] == init[q]);
    } else {
        assert(plans[plans.len() - 1].bindings[i - before.len()] == plan_bindings(plans)[i]);
    }
}

/// Each plan binds, in order, the Requirements of its Instance's Definition.
pub open spec fn binds_own_requirements(g: GraphState, p: PlanView) -> bool {
    &&& g.instances@.contains_key(p.instance_id.0)
    &&& p.bindings.len() <= requirements_of(g, p.instance_id.0).len()
    &&& forall|j: int| 0 <= j < p.bindings.len() ==> (#[trigger] p.bindings[j]).requirement == requirements_of(g, p.instance_id.0)[j].id
}

/// Plans of distinct Instances that each bind their own Requirements never bind one Requirement twice.
pub proof fn lemma_plan_bindings_distinct(g: GraphState, plans: Seq<PlanView>)
    requires
        g.consistent(),
        plans_distinct(plans),
        forall|q: int| 0 <= q < plans.len() ==> binds_own_requirements(g, #[trigger] plans[q]),
    ensures
        bindings_distinct(plan_bindings(plans)),
    decreases plans.len(),
{
    if plans.len() > 0 {
        let init = plans.drop_last();
        let last = plans.last();
        assert forall|q: int| 0 <= q < init.len() implies binds_own_requirements(g, #[trigger] init[q]) by {
            assert(init[q] == plans[q]);
        }
        assert(plans_distinct(init)) by {
            assert forall|i: int, j: int| 0 <= i < j < init.len() implies (#[trigger] init[i]).instance_id != (#[trigger] init[j]).instance_id by {
                assert(init[i] == plans[i] && init[j] == plans[j]);
            }
        }
        lemma_plan_bindings_distinct(g, init);
        let before = plan_bindings(init);
        let all = plan_bindings(plans);
        assert(all == before + last.bindings);
        assert(binds_own_requirements(g, plans[plans.len() - 1]));
        let kl = last.instance_id.0;
        let dl = g.instances@[kl].definition_id.0;
        assert forall|i: int, j: int| 0 <= i < j < all.len() implies (#[trigger] all[i]).requirement != (#[trigger] all[j]).requirement by {
            if j < before.len() {
                assert(all[i] == before[i] && all[j] == before[j]);
            } else if i >= before.len() {
                let a = i - before.len();
                let b = j - before.len();
                assert(all[i] == last.bindings[a] && all[j] == last.bindings[b]);
                assert(g.definitions@[dl].requirements@[a].id != g.definitions@[dl].requirements@[b].id);
            } else {
                lemma_plan_bindings_member(init, i);
                let (q, a) = choose|q: int, a: int| 0 <= q < init.len() && 0 <= a < init[q].bindings.len() && #[trigger] init[q].bindings[a] == before[i];
                let b = j - before.len();
                assert(all[i] == before[i] && all[j] == last.bindings[b]);
                assert(init[q] == plans[q]);
                assert(binds_own_requirements(g, plans[q]));
                let kq = plans[q].instance_id.0;
                assert(plans[q].instance_id != plans[plans.len() - 1].instance_id);
                let dq = g.instances@[kq].definition_id.0;
                assert(g.instances@.contains_key(kq) && g.instances@.contains_key(kl) && kq != kl);
                assert(g.definitions@.contains_key(dq) && g.definitions@.contains_key(dl));
                assert(g.definitions@[dq].requirements@[a].id != g.definitions@[dl].requirements@[b].id);
            }
        }
    }
}

/// Inserting Bindings that bind distinct Requirements leaves each of them under its Requirement.
pub proof fn lemma_insert_all_distinct(m: Map<u64, Binding>, s: Seq<Binding>, i: int)
    requires
        bindings_distinct(s),
        0 <= i < s.len(),
    ensures
        insert_all(m, s).contains_key(s[i].requirement.0),
        insert_all(m, s)[s[i].requirement.0] == s[i],
{
    let j = crate::consistency::lemma_insert_all_value(m, s, i);
    if j != i {
        if i < j {
            assert(s[i].requirement != s[j].requirement);
        } else {
            assert(s[j].requirement != s[i].requirement);
        }
    }
}

/// A default plan binds, in order, the Requirements of its Instance's Definition.
pub proof fn lemma_default_plan_binds_own(g: GraphState, cs: Set<u64>, plans: Seq<PlanView>, p: PlanView)
    requires
        default_plans(g, cs, plans),
        plans.contains(p),
    ensures
        binds_own_requirements(g, p),
        p.bindings.len() == requirements_of(g, p.instance_id.0).len(),
{
    let idx = choose|idx: int| 0 <= idx < plans.len() && plans[idx] == p;
    let k = p.instance_id.0;
    assert(default_plan_exists(g, cs, plans[idx].instance_id.0) && is_default_plan(g, cs, plans[idx].instance_id.0, plans[idx]));
    let reqs = requirements_of(g, k);
    assert forall|j: int| 0 <= j < p.bindings.len() implies (#[trigger] p.bindings[j]).requirement == reqs[j].id by {
        assert(default_binding(g, reqs[j], cs) is Some);
        assert(p.bindings[j] == default_binding(g, reqs[j], cs)->0);
    }
}

/// A default plan's Instance lives, and each of its Bindings names a registered
/// Capability of the bound Requirement's contract, under the Capability's own provider.
pub proof fn lemma_default_plan_fits(g: GraphState, cs: Set<u64>, plans: Seq<PlanView>, p: PlanView)
    requires
        g.wf(),
        default_plans(g, cs, plans),
        plans.contains(p),
    ensures
        crate::consistency::plan_fits(g, p),
{
    let idx = choose|idx: int| 0 <= idx < plans.len() && plans[idx] == p;
    let k = p.instance_id.0;
    assert(default_plan_exists(g, cs, plans[idx].instance_id.0) && is_default_plan(g, cs, plans[idx].instance_id.0, plans[idx]));
    let reqs = requirements_of(g, k);
    assert forall|j: int| 0 <= j < p.bindings.len() implies {
        let b = #[trigger] p.bindings[j];
        &&& g.capabilities@.contains_key(b.capability.0)
        &&& g.capabilities@[b.capability.0].provider_id == b.provider
        &&& g.capabilities@[b.capability.0].capability.contract == requirements_of(g, k)[j].contract
    } by {
        assert(default_binding(g, reqs[j], cs) is Some);
        assert(p.bindings[j] == default_binding(g, reqs[j], cs)->0);
        crate::resolution::lemma_default_binding_fits(g, reqs[j], cs);
    }
}

/// The Bindings a successful registration reports as created bind distinct
/// Requirements, and each is the Binding the graph holds afterwards under its
/// Requirement.
pub proof fn law_created_bindings_in_place(
    g0: GraphState,
    id0: u64,
    new: GraphState,
    id1: u64,
    definition: ComponentDefinition,
    instance_id: ComponentInstanceId,
    r: Result<TransitionOutcome, KernelError>,
)
    requires
        g0.wf(),
        g0.consistent(),
        registration_handled(g0, id0, new, id1, definition, instance_id, r),
        r is Ok,
    ensures
        bindings_distinct(r->Ok_0.created_bindings@),
        forall|i: int| 0 <= i < r->Ok_0.created_bindings@.len()
            ==> new.bindings@.contains_key((#[trigger] r->Ok_0.created_bindings@[i]).requirement.0)
                && new.bindings@[r->Ok_0.created_bindings@[i].requirement.0] == r->Ok_0.created_bindings@[i],
{
    let (g1, order, t, b, res) = choose|g1: GraphState, order: Seq<PlanView>, t: Seq<LifecycleTransition>, b: Seq<Binding>, res: Result<(), KernelError>| {
        &&& registered(g0, g1, definition, instance_id)
        &&& activation_order(g1, instance_id, order)
        &&& activations_started(g1, id0, new, id1, order, seq![registered_transition(instance_id)], t, Seq::empty(), b, res)
        &&& match res {
            Ok(_) => r matches Ok(o) && o.transitions@ == t && o.created_bindings@ == b,
            Err(e) => r == Err::<TransitionOutcome, KernelError>(e),
        }
    };
    crate::consistency::lemma_registered_consistent(g0, g1, definition, instance_id);
    let (cs, ps) = choose|cs: Set<u64>, ps: Seq<PlanView>| is_affected_closure(g1, instance_id.0, cs) && default_plans(g1, cs, ps)
        && order == flat_fronts(fronts_from(ps, Set::<u64>::empty()));
    let (gs, n) = choose|gs: Seq<GraphState>, n: int| {
        &&& 0 <= n <= order.len()
        &&& gs[0] == g1
        &&& activation_chain(gs, order.take(n), id0)
        &&& new == gs[n]
        &&& id1 == id0 + n
        &&& t == seq![registered_transition(instance_id)] + plan_transitions(order.take(n))
        &&& b == Seq::<Binding>::empty() + plan_bindings(order.take(n))
        &&& n == order.len() ==> res is Ok
        &&& n < order.len() ==> (res matches Err(e) && start_failure(e, order[n], id0 + n))
    };
    let prefix = order.take(n);
    let fs = fronts_from(ps, Set::<u64>::empty());
    assert forall|q: int| 0 <= q < prefix.len() implies binds_own_requirements(g1, #[trigger] prefix[q]) by {
        crate::consistency::lemma_flat_fronts_members(fs, q);
        let (a, c) = choose|a: int, c: int| 0 <= a < fs.len() && 0 <= c < fs[a].len() && fs[a][c] == flat_fronts(fs)[q];
        crate::consistency::lemma_fronts_members(ps, Set::<u64>::empty(), a, c);
        lemma_default_plan_binds_own(g1, cs, ps, prefix[q]);
    }
    assert(plans_ordered(ps));
    lemma_flat_fronts_distinct(ps, Set::<u64>::empty());
    assert(plans_distinct(prefix)) by {
        assert forall|i: int, j: int| 0 <= i < j < prefix.len() implies (#[trigger] prefix[i]).instance_id != (#[trigger] prefix[j]).instance_id by {
            assert(prefix[i] == order[i] && prefix[j] == order[j]);
        }
    }
    lemma_plan_bindings_distinct(g1, prefix);
    lemma_chain_bindings(gs, prefix, id0, n);
    assert(prefix.take(n) =~= prefix);
    assert(Seq::<Binding>::empty() + plan_bindings(prefix) =~= plan_bindings(prefix));
    let created = r->Ok_0.created_bindings@;
    assert(created == plan_bindings(prefix));
    assert forall|i: int| 0 <= i < created.len()
        implies new.bindings@.contains_key((#[trigger] created[i]).requirement.0) && new.bindings@[created[i].requirement.0] == created[i] by {
        lemma_insert_all_distinct(g1.bindings@, created, i);
    }
}

/// A registration activates each Instance at most once: the activations its outcome reports name distinct Instances.
pub proof fn law_outcome_activations_distinct(
    g0: GraphState,
    id0: u64,
    new: GraphState,
    id1: u64,
    definition: ComponentDefinition,
    instance_id: ComponentInstanceId,
    r: Result<TransitionOutcome, KernelError>,
)
    requires
        registration_handled(g0, id0, new, id1, definition, instance_id, r),
        r is Ok,
    ensures
        forall|i: int, j: int| 1 <= i < j < r->Ok_0.transitions@.len()
            ==> (#[trigger] r->Ok_0.transitions@[i]).instance_id != (#[trigger] r->Ok_0.transitions@[j]).instance_id,
{
    let (g1, order, t, b, res) = choose|g1: GraphState, order: Seq<PlanView>, t: Seq<LifecycleTransition>, b: Seq<Binding>, res: Result<(), KernelError>| {
        &&& registered(g0, g1, definition, instance_id)
        &&& activation_order(g1, instance_id, order)
        &&& activations_started(g1, id0, new, id1, order, seq![registered_transition(instance_id)], t, Seq::empty(), b, res)
        &&& match res {
            Ok(_) => r matches Ok(o) && o.transitions@ == t && o.created_bindings@ == b,
            Err(e) => r == Err::<TransitionOutcome, KernelError>(e),
        }
    };
    let (cs, ps) = choose|cs: Set<u64>, ps: Seq<PlanView>| is_affected_closure(g1, instance_id.0, cs) && default_plans(g1, cs, ps)
        && order == flat_fronts(fronts_from(ps, Set::<u64>::empty()));
    let (gs, n) = choose|gs: Seq<GraphState>, n: int| {
        &&& 0 <= n <= order.len()
        &&& gs[0] == g1
        &&& activation_chain(gs, order.take(n), id0)
        &&& new == gs[n]
        &&& id1 == id0 + n
        &&& t == seq![registered_transition(instance_id)] + plan_transitions(order.take(n))
        &&& b == Seq::<Binding>::empty() + plan_bindings(order.take(n))
        &&& n == order.len() ==> res is Ok
        &&& n < order.len() ==> (res matches Err(e) && start_failure(e, order[n], id0 + n))
    };
    let prefix = order.take(n);
    let ts = r->Ok_0.transitions@;
    assert(plans_ordered(ps));
    lemma_flat_fronts_distinct(ps, Set::<u64>::empty());
    assert forall|i: int, j: int| 1 <= i < j < ts.len() implies (#[trigger] ts[i]).instance_id != (#[trigger] ts[j]).instance_id by {
        assert(ts[i].instance_id == prefix[i - 1].instance_id && ts[j].instance_id == prefix[j - 1].instance_id);
        assert(prefix[i - 1] == order[i - 1] && prefix[j - 1] == order[j - 1]);
    }
}


/// Once a lifecycle holds a Definition, no Loader Event removes or changes it.
pub proof fn law_definition_kept(
    old: Map<u64, LoadRecord>,
    new: Map<u64, LoadRecord>,
    hooks: nat,
    rt0: GraphState,
    n0: u64,
    rt1: GraphState,
    n1: u64,
    event: LoaderEvent,
    r: Result<LoaderOutcome, LoaderError>,
)
    requires
        loader_handled(old, new, hooks, rt0, n0, rt1, n1, event, r),
        records_follow_phases(old),
    ensures
        forall|k: u64| #[trigger] old.contains_key(k) && old[k].definition is Some
            ==> new.contains_key(k) && new[k].definition == old[k].definition,
{
    law_inspected_definition_registered(old, new, hooks, rt0, n0, rt1, n1, event, r);
    match event {
        LoaderEvent::Inspect(id) => {
            if phase_error(old, id, LoadPhase::Materialized) is None {
                assert(old[id.0].phase == LoadPhase::Materialized);
                assert(old[id.0].definition is None);
            }
        },
        _ => {},
    }
}


/// Once a lifecycle is Rejected, no Loader Event changes its record: it keeps
/// the rejection, with its reason, that ended it.
pub proof fn law_rejection_kept(
    old: Map<u64, LoadRecord>,
    new: Map<u64, LoadRecord>,
    hooks: nat,
    rt0: GraphState,
    n0: u64,
    rt1: GraphState,
    n1: u64,
    event: LoaderEvent,
    r: Result<LoaderOutcome, LoaderError>,
)
    requires
        loader_handled(old, new, hooks, rt0, n0, rt1, n1, event, r),
        records_follow_phases(old),
    ensures
        forall|k: u64| #[trigger] old.contains_key(k) && old[k].rejection is Some
            ==> new.contains_key(k) && new[k] == old[k],
{
    assert forall|k: u64| #[trigger] old.contains_key(k) && old[k].rejection is Some
        implies new.contains_key(k) && new[k] == old[k] by {
        assert(old[k].phase == LoadPhase::Rejected);
    }
}

/// No two plans activate the same Instance.
pub open spec fn plans_distinct(s: Seq<PlanView>) -> bool {
    forall|i: int, j: int| 0 <= i < j < s.len() ==> (#[trigger] s[i]).instance_id != (#[trigger] s[j]).instance_id
}

/// Flattening a front followed by more fronts is that front followed by their flattening.
pub proof fn lemma_flat_prepend(a: Seq<PlanView>, fs: Seq<Seq<PlanView>>)
    ensures
        flat_fronts(seq![a] + fs) == a + flat_fronts(fs),
    decreases fs.len(),
{
    if fs.len() == 0 {
        assert(seq![a] + fs =~= seq![a]);
        assert(seq![a].drop_last() =~= Seq::<Seq<PlanView>>::empty());
        assert(flat_fronts(seq![a]) == flat_fronts(Seq::<Seq<PlanView>>::empty()) + a);
        assert(flat_fronts(Seq::<Seq<PlanView>>::empty()) == Seq::<PlanView>::empty());
        assert(Seq::<PlanView>::empty() + a =~= a);
        assert(a + Seq::<PlanView>::empty() =~= a);
    } else {
        lemma_flat_prepend(a, fs.drop_last());
        assert((seq![a] + fs).drop_last() =~= seq![a] + fs.drop_last());
        assert((seq![a] + fs).last() == fs.last());
        assert(a + flat_fronts(fs.drop_last()) + fs.last() =~= a + (flat_fronts(fs.drop_last()) + fs.last()));
    }
}

/// The fronts of plans ordered by Instance identity, flattened, activate each Instance at most once.
pub proof fn lemma_flat_fronts_distinct(plans: Seq<PlanView>, completed: Set<u64>)
    requires
        plans_ordered(plans),
    ensures
        plans_distinct(flat_fronts(fronts_from(plans, completed))),
    decreases plans.len(),
{
    let ready = plans.filter(ready_in(completed));
    let rest = plans.filter(waiting_in(completed));
    crate::resolution::lemma_filter_partition(plans, ready_in(completed), waiting_in(completed));
    if ready.len() > 0 {
        let later = fronts_from(rest, completed + plan_ids(ready));
        assert(fronts_from(plans, completed) == seq![ready] + later);
        lemma_flat_prepend(ready, later);
        crate::resolution::lemma_filter_ordered(plans, ready_in(completed));
        crate::resolution::lemma_filter_ordered(plans, waiting_in(completed));
        lemma_flat_fronts_distinct(rest, completed + plan_ids(ready));
        let fl = flat_fronts(later);
        let all = ready + fl;
        assert forall|i: int, j: int| 0 <= i < j < all.len() implies (#[trigger] all[i]).instance_id != (#[trigger] all[j]).instance_id by {
            if j < ready.len() {
                assert(all[i] == ready[i] && all[j] == ready[j]);
            } else if i >= ready.len() {
                assert(all[i] == fl[i - ready.len()] && all[j] == fl[j - ready.len()]);
            } else {
                let x = ready[i];
                let q = j - ready.len();
                assert(all[j] == fl[q]);
                crate::consistency::lemma_flat_fronts_members(later, q);
                let (a, c) = choose|a: int, c: int| 0 <= a < later.len() && 0 <= c < later[a].len() && later[a][c] == fl[q];
                crate::consistency::lemma_fronts_members(rest, completed + plan_ids(ready), a, c);
                let y = fl[q];
                plans.lemma_filter_pred(ready_in(completed), i);
                plans.lemma_filter_contains_rev(ready_in(completed), x);
                plans.lemma_filter_contains_rev(waiting_in(completed), y);
                let ix = choose|ix: int| 0 <= ix < plans.len() && plans[ix] == x;
                let iy = choose|iy: int| 0 <= iy < plans.len() && plans[iy] == y;
                let iq = choose|iq: int| 0 <= iq < rest.len() && rest[iq] == y;
                plans.lemma_filter_pred(waiting_in(completed), iq);
                if x.instance_id == y.instance_id {
                    if ix < iy {
                        assert(plans[ix].instance_id.0 < plans[iy].instance_id.0);
                    } else if iy < ix {
                        assert(plans[iy].instance_id.0 < plans[ix].instance_id.0);
                    }
                    assert(x == y);
                }
            }
        }
    }
}

} // verus!
