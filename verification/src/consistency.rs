//! Every Kernel Event keeps the System Graph's tables consistent with one another.
use vstd::prelude::*;
use crate::declaration::ComponentDefinition;
use crate::graph::{GraphState, capability_conflicts, identity_error, placements_of, registration_error, requirement_conflict, requirement_conflicts};
use crate::identity::{ComponentInstanceId, ComponentRuntimeId};
use crate::keyed::{Keyed, insert_all, seq_has_key, seq_index_of, seq_to_map};
use crate::resolution::{
    PlanView, activation_applied, all_bindable, default_binding, default_bindings, default_plan_exists, default_plans, fronts_from,
    is_default_plan, plan_ids, plannable, ready_in, requirements_of, waiting_in,
};
use crate::runtime::flat_fronts;
use crate::runtime::registered;
use crate::search::{first_where, lemma_first_where_none};
use crate::system::{Binding, Capability, CapabilityPlacement, Requirement};
use crate::removal::{RemovalPlan, consumer_of, consumer_planned, is_removal_closure, lost_bindings, own_bindings_of, plan_consumer, plan_drops_binding, plan_released, removal_applied, removal_planned};
use crate::system::ResolutionState;

verus! {

/// Keys of a map after inserting records are the old keys or keys of the records; other keys keep their value.
pub proof fn lemma_insert_all_keys<T: Keyed>(m: Map<u64, T>, s: Seq<T>)
    ensures
        forall|q: u64| #[trigger] insert_all(m, s).contains_key(q) ==> m.contains_key(q) || exists|i: int| 0 <= i < s.len() && s[i].spec_key() == q,
        forall|q: u64| (forall|i: int| 0 <= i < s.len() ==> s[i].spec_key() != q) ==> (#[trigger] insert_all(m, s).contains_key(q) == m.contains_key(q)
            && (m.contains_key(q) ==> insert_all(m, s)[q] == m[q])),
        forall|q: u64| #[trigger] m.contains_key(q) ==> insert_all(m, s).contains_key(q),
    decreases s.len(),
{
    if s.len() > 0 {
        let t = s.drop_last();
        lemma_insert_all_keys(m, t);
        assert forall|q: u64| #[trigger] insert_all(m, s).contains_key(q) implies m.contains_key(q) || exists|i: int| 0 <= i < s.len() && s[i].spec_key() == q by {
            if q == s.last().spec_key() {
                assert(s[s.len() - 1].spec_key() == q);
            } else if !m.contains_key(q) {
                assert(insert_all(m, t).contains_key(q));
                let i = choose|i: int| 0 <= i < t.len() && t[i].spec_key() == q;
                assert(s[i] == t[i]);
            }
        }
        assert forall|q: u64| (forall|i: int| 0 <= i < s.len() ==> s[i].spec_key() != q) implies (#[trigger] insert_all(m, s).contains_key(q) == m.contains_key(q)
            && (m.contains_key(q) ==> insert_all(m, s)[q] == m[q])) by {
            assert(s[s.len() - 1].spec_key() != q);
            assert forall|i: int| 0 <= i < t.len() implies t[i].spec_key() != q by {
                assert(t[i] == s[i]);
            }
        }
    }
}

/// Inserting records that carry key `s[i0].spec_key()` leaves one of them under that key.
pub proof fn lemma_insert_all_value<T: Keyed>(m: Map<u64, T>, s: Seq<T>, i0: int) -> (j: int)
    requires
        0 <= i0 < s.len(),
    ensures
        0 <= j < s.len(),
        s[j].spec_key() == s[i0].spec_key(),
        insert_all(m, s).contains_key(s[i0].spec_key()),
        insert_all(m, s)[s[i0].spec_key()] == s[j],
    decreases s.len(),
{
    let q = s[i0].spec_key();
    if s.last().spec_key() == q {
        s.len() - 1
    } else {
        let t = s.drop_last();
        assert(i0 < s.len() - 1);
        assert(t[i0] == s[i0]);
        let j = lemma_insert_all_value(m, t, i0);
        assert(s[j] == t[j]);
        j
    }
}

/// The records of a key-ordered sequence's map are records of the sequence.
pub proof fn lemma_seq_to_map_values<T: Keyed>(s: Seq<T>, q: u64)
    requires
        seq_to_map(s).contains_key(q),
    ensures
        exists|i: int| 0 <= i < s.len() && s[i] == seq_to_map(s)[q] && s[i].spec_key() == q,
{
    assert(seq_has_key(s, q));
    let i = seq_index_of(s, q);
    assert(s[i] == seq_to_map(s)[q]);
}

/// The empty graph is consistent.
pub proof fn lemma_empty_consistent(g: GraphState)
    requires
        g.is_empty(),
    ensures
        g.consistent(),
{
}

/// Registering a Definition with a fresh Instance keeps the graph consistent.
pub proof fn lemma_registered_consistent(g0: GraphState, g1: GraphState, definition: ComponentDefinition, instance_id: ComponentInstanceId)
    requires
        g0.consistent(),
        registration_error(g0, definition, instance_id) is None,
        registered(g0, g1, definition, instance_id),
    ensures
        g1.consistent(),
{
    let reqs = definition.requirements@;
    assert(identity_error(g0, definition, instance_id) is None);
    assert(first_where(reqs.len() as int, requirement_conflicts(g0, reqs)) is None);
    assert forall|j: int| 0 <= j < reqs.len() implies !g0.requirements@.contains_key(reqs[j].id.0) by {
        if g0.requirements@.contains_key(reqs[j].id.0) {
            assert(requirement_conflicts(g0, reqs)(j));
        }
    }
    let new_reqs = seq_to_map(reqs);
    assert forall|j: int| 0 <= j < reqs.len() implies #[trigger] new_reqs.contains_key(reqs[j].id.0) by {
        assert(reqs[j].spec_key() == reqs[j].id.0);
    }
    assert forall|d: u64, j: int| g1.definitions@.contains_key(d) && 0 <= j < g1.definitions@[d].requirements@.len()
        implies g1.requirements@.contains_key((#[trigger] g1.definitions@[d].requirements@[j]).id.0) by {
        if d == definition.id.0 {
            assert(new_reqs.contains_key(reqs[j].id.0));
        }
    }
    assert forall|a: u64, b: u64| #[trigger] g1.instances@.contains_key(a) && #[trigger] g1.instances@.contains_key(b) && a != b
        implies g1.instances@[a].definition_id != g1.instances@[b].definition_id by {
        if a == instance_id.0 {
            assert(g0.definitions@.contains_key(g0.instances@[b].definition_id.0));
        } else if b == instance_id.0 {
            assert(g0.definitions@.contains_key(g0.instances@[a].definition_id.0));
        }
    }
    assert forall|d1: u64, d2: u64, i: int, j: int| g1.definitions@.contains_key(d1) && g1.definitions@.contains_key(d2) && d1 != d2
        && 0 <= i < g1.definitions@[d1].requirements@.len() && 0 <= j < g1.definitions@[d2].requirements@.len()
        implies (#[trigger] g1.definitions@[d1].requirements@[i]).id != (#[trigger] g1.definitions@[d2].requirements@[j]).id by {
        if d1 == definition.id.0 {
            assert(g0.requirements@.contains_key(g0.definitions@[d2].requirements@[j].id.0));
        } else if d2 == definition.id.0 {
            assert(g0.requirements@.contains_key(g0.definitions@[d1].requirements@[i].id.0));
        }
    }
    assert forall|d: u64, i: int, j: int| g1.definitions@.contains_key(d) && 0 <= i < j < g1.definitions@[d].requirements@.len()
        implies (#[trigger] g1.definitions@[d].requirements@[i]).id != (#[trigger] g1.definitions@[d].requirements@[j]).id by {
        if d == definition.id.0 && reqs[i].id == reqs[j].id {
            assert(requirement_conflicts(g0, reqs)(j));
        }
    }
}

/// Activating a plan whose Bindings resolve registered Requirements keeps the graph consistent.
pub proof fn lemma_activation_consistent(old: GraphState, new: GraphState, plan: PlanView, runtime_id: ComponentRuntimeId)
    requires
        old.consistent(),
        activation_applied(old, new, plan, runtime_id),
        forall|i: int| 0 <= i < plan.bindings.len() ==> old.requirements@.contains_key(#[trigger] plan.bindings[i].requirement.0),
    ensures
        new.consistent(),
{
    lemma_insert_all_keys(old.bindings@, plan.bindings);
    assert forall|k: u64| #[trigger] new.bindings@.contains_key(k) implies new.requirements@.contains_key(k) by {
        if !old.bindings@.contains_key(k) {
            let i = choose|i: int| 0 <= i < plan.bindings.len() && plan.bindings[i].spec_key() == k;
            assert(old.requirements@.contains_key(plan.bindings[i].requirement.0));
        }
    }
    let k = plan.instance_id.0;
    if old.instances@.contains_key(k) {
        assert forall|q: u64| #[trigger] new.runtimes@.contains_key(q) implies new.instances@.contains_key(q) by {
            assert(new.runtimes@.dom().contains(q));
        }
        assert forall|a: u64, b: u64| #[trigger] new.instances@.contains_key(a) && #[trigger] new.instances@.contains_key(b) && a != b
            implies new.instances@[a].definition_id != new.instances@[b].definition_id by {
            assert(old.instances@.contains_key(a) && old.instances@.contains_key(b));
        }
    }
}


/// Removing an Instance along its plan keeps the graph consistent.
pub proof fn lemma_removal_consistent(g0: GraphState, new: GraphState, id: ComponentInstanceId, plan: RemovalPlan)
    requires
        g0.wf(),
        g0.consistent(),
        g0.instances@.contains_key(id.0),
        removal_planned(g0, id, &plan),
        removal_applied(g0, new, &plan),
    ensures
        new.consistent(),
{
    let def_id = plan.definition_id;
    assert(g0.definitions@.contains_key(def_id.0));
    let def = g0.definitions@[def_id.0];
    assert(plan_released(&plan, id.0));
    assert forall|k: u64| #[trigger] new.runtimes@.contains_key(k) implies new.instances@.contains_key(k) by {
        assert(g0.runtimes@.contains_key(k));
    }
    assert forall|k: u64| #[trigger] new.bindings@.contains_key(k) implies new.requirements@.contains_key(k) by {
        assert(g0.bindings@.contains_key(k));
        assert(!plan_drops_binding(&plan, k));
        if exists|j: int| 0 <= j < def.requirements@.len() && #[trigger] def.requirements@[j].id.0 == k {
            let j = choose|j: int| 0 <= j < def.requirements@.len() && #[trigger] def.requirements@[j].id.0 == k;
            let p = |r: Requirement| g0.bindings@.contains_key(r.id.0);
            let f = |r: Requirement| g0.bindings@[r.id.0];
            def.requirements@.lemma_filter_contains(p, j);
            let filtered = def.requirements@.filter(p);
            let q = choose|q: int| 0 <= q < filtered.len() && filtered[q] == def.requirements@[j];
            assert(own_bindings_of(g0, def_id) == filtered.map_values(f));
            assert(plan.own_bindings@[q] == g0.bindings@[k]);
            g0.bindings.lemma_view();
            assert(g0.bindings@[k].spec_key() == k);
            assert(plan.own_bindings@[q].requirement.0 == k);
            assert(false);
        }
    }
    assert forall|k: u64| #[trigger] new.instances@.contains_key(k) implies new.definitions@.contains_key(new.instances@[k].definition_id.0) by {
        assert(g0.instances@.contains_key(k) && k != id.0);
        assert(g0.instances@[k].definition_id != g0.instances@[id.0].definition_id);
    }
    assert forall|d: u64, j: int| new.definitions@.contains_key(d) && 0 <= j < new.definitions@[d].requirements@.len()
        implies new.requirements@.contains_key((#[trigger] new.definitions@[d].requirements@[j]).id.0) by {
        let r = g0.definitions@[d].requirements@[j];
        assert(g0.requirements@.contains_key(r.id.0));
        if exists|i: int| 0 <= i < def.requirements@.len() && #[trigger] def.requirements@[i].id.0 == r.id.0 {
            let i = choose|i: int| 0 <= i < def.requirements@.len() && #[trigger] def.requirements@[i].id.0 == r.id.0;
            assert(def.requirements@[i].id != g0.definitions@[d].requirements@[j].id);
        }
    }
    assert forall|a: u64, b: u64| #[trigger] new.instances@.contains_key(a) && #[trigger] new.instances@.contains_key(b) && a != b
        implies new.instances@[a].definition_id != new.instances@[b].definition_id by {
        assert(g0.instances@.contains_key(a) && g0.instances@.contains_key(b));
    }
}


/// Every Requirement of the Definition of an Active Instance has a Binding.
pub open spec fn active_requirements_bound(g: GraphState) -> bool {
    forall|k: u64, j: int| #[trigger] g.instances@.contains_key(k) && g.instances@[k].resolution == ResolutionState::Active
        && 0 <= j < requirements_of(g, k).len() ==> g.bindings@.contains_key((#[trigger] requirements_of(g, k)[j]).id.0)
}

/// A change that keeps the Definitions, Instances and Bindings keeps every Active Instance's Requirements bound.
pub proof fn lemma_bound_same_tables(g0: GraphState, g1: GraphState)
    requires
        active_requirements_bound(g0),
        g1.definitions@ == g0.definitions@,
        g1.instances@ == g0.instances@,
        g1.bindings@ == g0.bindings@,
    ensures
        active_requirements_bound(g1),
{
    assert forall|k: u64, j: int| #[trigger] g1.instances@.contains_key(k) && g1.instances@[k].resolution == ResolutionState::Active
        && 0 <= j < requirements_of(g1, k).len() implies g1.bindings@.contains_key((#[trigger] requirements_of(g1, k)[j]).id.0) by {
        assert(requirements_of(g1, k) == requirements_of(g0, k));
    }
}

/// A registration adds a Pending Instance and changes no Binding, so every
/// Active Instance keeps its Bindings.
pub proof fn lemma_registered_keeps_bound(g0: GraphState, g1: GraphState, definition: ComponentDefinition, instance_id: ComponentInstanceId)
    requires
        g0.consistent(),
        active_requirements_bound(g0),
        registration_error(g0, definition, instance_id) is None,
        registered(g0, g1, definition, instance_id),
    ensures
        active_requirements_bound(g1),
{
    assert(identity_error(g0, definition, instance_id) is None);
    assert forall|k: u64, j: int| #[trigger] g1.instances@.contains_key(k) && g1.instances@[k].resolution == ResolutionState::Active
        && 0 <= j < requirements_of(g1, k).len() implies g1.bindings@.contains_key((#[trigger] requirements_of(g1, k)[j]).id.0) by {
        assert(k != instance_id.0);
        assert(g0.instances@.contains_key(k) && g1.instances@[k] == g0.instances@[k]);
        let dk = g0.instances@[k].definition_id.0;
        assert(g0.definitions@.contains_key(dk));
        assert(dk != definition.id.0);
        assert(requirements_of(g1, k) == requirements_of(g0, k));
    }
}

/// Activating a plan that binds every Requirement of its Instance keeps every
/// Active Instance's Requirements bound.
pub proof fn lemma_activation_keeps_bound(before: GraphState, after: GraphState, plan: PlanView, rid: ComponentRuntimeId)
    requires
        active_requirements_bound(before),
        activation_applied(before, after, plan, rid),
        before.instances@.contains_key(plan.instance_id.0) ==> plan.bindings.len() == requirements_of(before, plan.instance_id.0).len()
            && forall|j: int| 0 <= j < plan.bindings.len()
                ==> (#[trigger] plan.bindings[j]).requirement == requirements_of(before, plan.instance_id.0)[j].id,
    ensures
        active_requirements_bound(after),
{
    let pk = plan.instance_id.0;
    lemma_insert_all_keys(before.bindings@, plan.bindings);
    assert forall|k: u64, j: int| #[trigger] after.instances@.contains_key(k) && after.instances@[k].resolution == ResolutionState::Active
        && 0 <= j < requirements_of(after, k).len() implies after.bindings@.contains_key((#[trigger] requirements_of(after, k)[j]).id.0) by {
        assert(before.instances@.contains_key(k));
        assert(after.instances@[k].definition_id == before.instances@[k].definition_id);
        assert(requirements_of(after, k) == requirements_of(before, k));
        if k == pk {
            let v = lemma_insert_all_value(before.bindings@, plan.bindings, j);
            assert(plan.bindings[j].spec_key() == requirements_of(before, k)[j].id.0);
        } else {
            assert(after.instances@[k] == before.instances@[k]);
            assert(before.bindings@.contains_key(requirements_of(before, k)[j].id.0));
        }
    }
}

/// Removing an Instance drops only Bindings of its own Requirements and of the
/// consumers it returns to Pending, so every Instance still Active keeps its Bindings.
pub proof fn lemma_removal_keeps_bound(g0: GraphState, new: GraphState, id: ComponentInstanceId, plan: RemovalPlan)
    requires
        g0.wf(),
        g0.consistent(),
        active_requirements_bound(g0),
        g0.instances@.contains_key(id.0),
        removal_planned(g0, id, &plan),
        removal_applied(g0, new, &plan),
    ensures
        active_requirements_bound(new),
{
    let a = choose|a: Set<u64>| is_removal_closure(g0, id.0, a)
        && (forall|i: int, j: int| 0 <= i < j < plan.consumers@.len() ==> #[trigger] plan.consumers@[i].instance_id.0 < #[trigger] plan.consumers@[j].instance_id.0)
        && (forall|k: u64| a.contains(k) <==> exists|i: int| 0 <= i < plan.consumers@.len() && #[trigger] plan.consumers@[i].instance_id.0 == k)
        && (forall|i: int| 0 <= i < plan.consumers@.len() ==> consumer_planned(g0, id.0, a, #[trigger] &plan.consumers@[i]));
    g0.bindings.lemma_view();
    let droot = g0.instances@[id.0].definition_id.0;
    assert forall|k: u64, j: int| #[trigger] new.instances@.contains_key(k) && new.instances@[k].resolution == ResolutionState::Active
        && 0 <= j < requirements_of(new, k).len() implies new.bindings@.contains_key((#[trigger] requirements_of(new, k)[j]).id.0) by {
        assert(g0.instances@.contains_key(k) && k != id.0);
        assert(!plan_consumer(&plan, k));
        assert(new.instances@[k] == g0.instances@[k]);
        let dk = g0.instances@[k].definition_id.0;
        assert(g0.instances@[k].definition_id != g0.instances@[id.0].definition_id);
        assert(dk != plan.definition_id.0);
        assert(new.definitions@[dk] == g0.definitions@[dk]);
        assert(requirements_of(new, k) == requirements_of(g0, k));
        let rid = requirements_of(g0, k)[j].id;
        assert(g0.bindings@.contains_key(rid.0));
        if plan_drops_binding(&plan, rid.0) {
            if exists|i: int, q: int| 0 <= i < plan.consumers@.len() && 0 <= q < plan.consumers@[i].bindings@.len()
                && #[trigger] plan.consumers@[i].bindings@[q].requirement.0 == rid.0 {
                let (i, q) = choose|i: int, q: int| 0 <= i < plan.consumers@.len() && 0 <= q < plan.consumers@[i].bindings@.len()
                    && #[trigger] plan.consumers@[i].bindings@[q].requirement.0 == rid.0;
                let c = plan.consumers@[i].instance_id.0;
                assert(consumer_planned(g0, id.0, a, &plan.consumers@[i]));
                let lost = lost_bindings(g0, id.0, a, c);
                let pred = |b: Binding| consumer_of(g0, b.requirement) == Some(c) && (b.provider.0 == id.0 || a.contains(b.provider.0));
                assert(lost == g0.bindings.seq().filter(pred));
                g0.bindings.seq().lemma_filter_pred(pred, q);
                let b = plan.consumers@[i].bindings@[q];
                assert(b.requirement == rid);
                assert(consumer_of(g0, rid) == Some(c));
                crate::removal::lemma_consumer_of_declares(g0, rid);
                let dc = g0.instances@[c].definition_id.0;
                let jc = choose|jc: int| 0 <= jc < g0.definitions@[dc].requirements@.len() && #[trigger] g0.definitions@[dc].requirements@[jc].id == rid;
                assert(plan_consumer(&plan, c));
                assert(c != k);
                assert(g0.instances@[c].definition_id != g0.instances@[k].definition_id);
                assert(g0.definitions@[dk].requirements@[j].id == rid);
                assert(false);
            } else {
                let q = choose|q: int| 0 <= q < plan.own_bindings@.len() && #[trigger] plan.own_bindings@[q].requirement.0 == rid.0;
                let reqs = g0.definitions@[droot].requirements@;
                let bound = |r: crate::system::Requirement| g0.bindings@.contains_key(r.id.0);
                let f = reqs.filter(bound);
                assert(plan.own_bindings@ == f.map_values(|r: crate::system::Requirement| g0.bindings@[r.id.0]));
                assert(plan.own_bindings@[q] == g0.bindings@[f[q].id.0]);
                g0.bindings.lemma_view();
                reqs.lemma_filter_pred(bound, q);
                assert(g0.bindings@.contains_key(f[q].id.0));
                assert(g0.bindings@[f[q].id.0].spec_key() == f[q].id.0);
                assert(f[q].id.0 == rid.0);
                reqs.lemma_filter_contains_rev(bound, f[q]);
                let qr = choose|qr: int| 0 <= qr < reqs.len() && reqs[qr] == f[q];
                assert(g0.definitions@[droot].requirements@[qr].id == g0.definitions@[dk].requirements@[j].id);
                assert(false);
            }
        }
    }
}

/// The Capabilities declared by the Definition of living Instance `i`.
pub open spec fn capabilities_of(g: GraphState, i: u64) -> Seq<Capability> {
    g.definitions@[g.instances@[i].definition_id.0].capabilities@
}

/// Requirement key `k` is declared by the Definition of a living Instance.
pub open spec fn declared_by_living(g: GraphState, k: u64) -> bool {
    exists|c: u64, j: int| #![trigger requirements_of(g, c)[j]]
        g.instances@.contains_key(c) && 0 <= j < requirements_of(g, c).len() && requirements_of(g, c)[j].id.0 == k
}

/// The Binding under key `k` names a registered Capability, published by the
/// Binding's provider, whose contract is that of the bound Requirement, and the
/// Requirement belongs to a living Instance.
pub open spec fn binding_fits(g: GraphState, k: u64) -> bool {
    let b = g.bindings@[k];
    &&& g.capabilities@.contains_key(b.capability.0)
    &&& g.capabilities@[b.capability.0].provider_id == b.provider
    &&& g.capabilities@[b.capability.0].capability.contract == g.requirements@[k].contract
    &&& declared_by_living(g, k)
}

/// The placement under key `c` is published by a living Instance whose Definition declares it.
pub open spec fn published_by_living(g: GraphState, c: u64) -> bool {
    let p = g.capabilities@[c];
    &&& g.instances@.contains_key(p.provider_id.0)
    &&& exists|j: int| 0 <= j < capabilities_of(g, p.provider_id.0).len() && #[trigger] capabilities_of(g, p.provider_id.0)[j] == p.capability
}

/// Every Binding fits, every placement is published by a living declarer, every
/// living Instance publishes the Capabilities of its Definition, and every
/// Requirement of a living Instance is registered as declared.
pub open spec fn bindings_fit(g: GraphState) -> bool {
    &&& forall|k: u64| #[trigger] g.bindings@.contains_key(k) ==> binding_fits(g, k)
    &&& forall|c: u64| #[trigger] g.capabilities@.contains_key(c) ==> published_by_living(g, c)
    &&& forall|i: u64, j: int| g.instances@.contains_key(i) && 0 <= j < capabilities_of(g, i).len()
        ==> g.capabilities@.contains_key((#[trigger] capabilities_of(g, i)[j]).id.0)
            && g.capabilities@[capabilities_of(g, i)[j].id.0].capability == capabilities_of(g, i)[j]
            && g.capabilities@[capabilities_of(g, i)[j].id.0].provider_id.0 == i
    &&& forall|i: u64, j: int| g.instances@.contains_key(i) && 0 <= j < requirements_of(g, i).len()
        ==> g.requirements@.contains_key((#[trigger] requirements_of(g, i)[j]).id.0)
            && g.requirements@[requirements_of(g, i)[j].id.0] == requirements_of(g, i)[j]
}

/// A change that keeps the Definitions, Instances, Requirements, Capabilities and Bindings keeps them fitting.
pub proof fn lemma_fit_same_tables(g0: GraphState, g1: GraphState)
    requires
        bindings_fit(g0),
        g1.definitions@ == g0.definitions@,
        g1.instances@ == g0.instances@,
        g1.requirements@ == g0.requirements@,
        g1.capabilities@ == g0.capabilities@,
        g1.bindings@ == g0.bindings@,
    ensures
        bindings_fit(g1),
{
    assert forall|k: u64| #[trigger] g1.bindings@.contains_key(k) implies binding_fits(g1, k) by {
        assert(binding_fits(g0, k));
        let (c, j) = choose|c: u64, j: int| #![trigger requirements_of(g0, c)[j]]
            g0.instances@.contains_key(c) && 0 <= j < requirements_of(g0, c).len() && requirements_of(g0, c)[j].id.0 == k;
        assert(requirements_of(g1, c) == requirements_of(g0, c));
    }
    assert forall|c: u64| #[trigger] g1.capabilities@.contains_key(c) implies published_by_living(g1, c) by {
        assert(published_by_living(g0, c));
        assert(capabilities_of(g1, g0.capabilities@[c].provider_id.0) == capabilities_of(g0, g0.capabilities@[c].provider_id.0));
    }
    assert forall|i: u64, j: int| g1.instances@.contains_key(i) && 0 <= j < capabilities_of(g1, i).len()
        implies g1.capabilities@.contains_key((#[trigger] capabilities_of(g1, i)[j]).id.0)
            && g1.capabilities@[capabilities_of(g1, i)[j].id.0].capability == capabilities_of(g1, i)[j]
            && g1.capabilities@[capabilities_of(g1, i)[j].id.0].provider_id.0 == i by {
        assert(capabilities_of(g1, i) == capabilities_of(g0, i));
    }
    assert forall|i: u64, j: int| g1.instances@.contains_key(i) && 0 <= j < requirements_of(g1, i).len()
        implies g1.requirements@.contains_key((#[trigger] requirements_of(g1, i)[j]).id.0)
            && g1.requirements@[requirements_of(g1, i)[j].id.0] == requirements_of(g1, i)[j] by {
        assert(requirements_of(g1, i) == requirements_of(g0, i));
    }
}

/// A registration publishes the new Instance's Capabilities and registers its
/// Requirements under fresh keys, so every Binding keeps fitting.
pub proof fn lemma_registered_keeps_fit(g0: GraphState, g1: GraphState, definition: ComponentDefinition, instance_id: ComponentInstanceId)
    requires
        g0.consistent(),
        bindings_fit(g0),
        registration_error(g0, definition, instance_id) is None,
        registered(g0, g1, definition, instance_id),
    ensures
        bindings_fit(g1),
{
    let reqs = definition.requirements@;
    let caps = definition.capabilities@;
    let id = instance_id.0;
    assert(identity_error(g0, definition, instance_id) is None);
    assert(first_where(reqs.len() as int, requirement_conflicts(g0, reqs)) is None);
    assert(first_where(caps.len() as int, capability_conflicts(g0, caps)) is None);
    assert forall|j: int| 0 <= j < reqs.len() implies !g0.requirements@.contains_key(reqs[j].id.0)
        && forall|i: int| 0 <= i < j ==> reqs[i].id != reqs[j].id by {
        if g0.requirements@.contains_key(reqs[j].id.0) || exists|i: int| 0 <= i < j && reqs[i].id == reqs[j].id {
            assert(requirement_conflicts(g0, reqs)(j));
        }
    }
    assert forall|j: int| 0 <= j < caps.len() implies !g0.capabilities@.contains_key(caps[j].id.0)
        && forall|i: int| 0 <= i < j ==> caps[i].id != caps[j].id by {
        if g0.capabilities@.contains_key(caps[j].id.0) || exists|i: int| 0 <= i < j && caps[i].id == caps[j].id {
            assert(capability_conflicts(g0, caps)(j));
        }
    }
    let new_reqs = seq_to_map(reqs);
    let places = placements_of(caps, instance_id);
    let new_caps = seq_to_map(places);
    assert forall|j: int| 0 <= j < reqs.len() implies #[trigger] new_reqs.contains_key(reqs[j].id.0) && new_reqs[reqs[j].id.0] == reqs[j] by {
        assert(reqs[j].spec_key() == reqs[j].id.0);
        assert(seq_has_key(reqs, reqs[j].id.0));
        lemma_seq_to_map_values(reqs, reqs[j].id.0);
        let i = choose|i: int| 0 <= i < reqs.len() && reqs[i] == new_reqs[reqs[j].id.0] && reqs[i].spec_key() == reqs[j].id.0;
        if i < j {
            assert(reqs[i].id != reqs[j].id);
        } else if i > j {
            assert(reqs[j].id != reqs[i].id);
        }
    }
    assert forall|q: u64| #[trigger] new_reqs.contains_key(q) implies exists|j: int| 0 <= j < reqs.len() && reqs[j].id.0 == q by {
        lemma_seq_to_map_values(reqs, q);
    }
    assert forall|j: int| 0 <= j < caps.len() implies #[trigger] new_caps.contains_key(caps[j].id.0)
        && new_caps[caps[j].id.0] == (CapabilityPlacement { capability: caps[j], provider_id: instance_id }) by {
        assert(places[j] == (CapabilityPlacement { capability: caps[j], provider_id: instance_id }));
        assert(places[j].spec_key() == caps[j].id.0);
        assert(seq_has_key(places, caps[j].id.0));
        lemma_seq_to_map_values(places, caps[j].id.0);
        let i = choose|i: int| 0 <= i < places.len() && places[i] == new_caps[caps[j].id.0] && places[i].spec_key() == caps[j].id.0;
        if i < j {
            assert(caps[i].id != caps[j].id);
        } else if i > j {
            assert(caps[j].id != caps[i].id);
        }
    }
    assert forall|q: u64| #[trigger] new_caps.contains_key(q) implies exists|j: int| 0 <= j < caps.len() && caps[j].id.0 == q by {
        lemma_seq_to_map_values(places, q);
        let i = choose|i: int| 0 <= i < places.len() && places[i] == new_caps[q] && places[i].spec_key() == q;
        assert(places[i].capability == caps[i]);
    }
    // Old keys keep their records.
    assert forall|q: u64| #[trigger] g0.requirements@.contains_key(q) implies g1.requirements@[q] == g0.requirements@[q] by {
        if new_reqs.contains_key(q) {
            let j = choose|j: int| 0 <= j < reqs.len() && reqs[j].id.0 == q;
        }
    }
    assert forall|q: u64| #[trigger] g0.capabilities@.contains_key(q) implies g1.capabilities@[q] == g0.capabilities@[q] by {
        if new_caps.contains_key(q) {
            let j = choose|j: int| 0 <= j < caps.len() && caps[j].id.0 == q;
        }
    }
    assert forall|c: u64| #[trigger] g0.instances@.contains_key(c) implies g1.instances@.contains_key(c)
        && requirements_of(g1, c) == requirements_of(g0, c) && capabilities_of(g1, c) == capabilities_of(g0, c) by {
        assert(c != id);
        assert(g0.definitions@.contains_key(g0.instances@[c].definition_id.0));
        assert(g0.instances@[c].definition_id.0 != definition.id.0);
    }
    assert(requirements_of(g1, id) == reqs);
    assert(capabilities_of(g1, id) == caps);
    assert forall|k: u64| #[trigger] g1.bindings@.contains_key(k) implies binding_fits(g1, k) by {
        assert(g0.bindings@.contains_key(k) && binding_fits(g0, k));
        let b = g0.bindings@[k];
        assert(g0.capabilities@.contains_key(b.capability.0));
        assert(g0.requirements@.contains_key(k));
        let (c, j) = choose|c: u64, j: int| #![trigger requirements_of(g0, c)[j]]
            g0.instances@.contains_key(c) && 0 <= j < requirements_of(g0, c).len() && requirements_of(g0, c)[j].id.0 == k;
        assert(requirements_of(g1, c)[j] == requirements_of(g0, c)[j]);
    }
    assert forall|c: u64| #[trigger] g1.capabilities@.contains_key(c) implies published_by_living(g1, c) by {
        if g0.capabilities@.contains_key(c) {
            assert(published_by_living(g0, c));
            let p = g0.capabilities@[c].provider_id.0;
            assert(capabilities_of(g1, p) == capabilities_of(g0, p));
        } else {
            assert(new_caps.contains_key(c));
            let j = choose|j: int| 0 <= j < caps.len() && caps[j].id.0 == c;
            assert(g1.capabilities@[c] == (CapabilityPlacement { capability: caps[j], provider_id: instance_id }));
            assert(capabilities_of(g1, id)[j] == caps[j]);
        }
    }
    assert forall|i: u64, j: int| g1.instances@.contains_key(i) && 0 <= j < capabilities_of(g1, i).len()
        implies g1.capabilities@.contains_key((#[trigger] capabilities_of(g1, i)[j]).id.0)
            && g1.capabilities@[capabilities_of(g1, i)[j].id.0].capability == capabilities_of(g1, i)[j]
            && g1.capabilities@[capabilities_of(g1, i)[j].id.0].provider_id.0 == i by {
        if i != id {
            assert(g0.instances@.contains_key(i));
            assert(capabilities_of(g1, i)[j] == capabilities_of(g0, i)[j]);
        }
    }
    assert forall|i: u64, j: int| g1.instances@.contains_key(i) && 0 <= j < requirements_of(g1, i).len()
        implies g1.requirements@.contains_key((#[trigger] requirements_of(g1, i)[j]).id.0)
            && g1.requirements@[requirements_of(g1, i)[j].id.0] == requirements_of(g1, i)[j] by {
        if i != id {
            assert(g0.instances@.contains_key(i));
            assert(requirements_of(g1, i)[j] == requirements_of(g0, i)[j]);
        }
    }
}

/// A Binding that a removal keeps neither belongs to the removed Instance nor
/// is provided by it: its Requirement is declared by another living Instance.
pub proof fn lemma_kept_binding_elsewhere(g0: GraphState, id: ComponentInstanceId, plan: RemovalPlan, k: u64) -> (c: u64)
    requires
        g0.wf(),
        g0.consistent(),
        bindings_fit(g0),
        g0.instances@.contains_key(id.0),
        removal_planned(g0, id, &plan),
        g0.bindings@.contains_key(k),
        !plan_drops_binding(&plan, k),
    ensures
        g0.instances@.contains_key(c),
        c != id.0,
        exists|j: int| 0 <= j < requirements_of(g0, c).len() && #[trigger] requirements_of(g0, c)[j].id.0 == k,
        g0.bindings@[k].provider.0 != id.0,
{
    let root = id.0;
    let a = choose|a: Set<u64>| is_removal_closure(g0, id.0, a)
        && (forall|i: int, j: int| 0 <= i < j < plan.consumers@.len() ==> #[trigger] plan.consumers@[i].instance_id.0 < #[trigger] plan.consumers@[j].instance_id.0)
        && (forall|k: u64| a.contains(k) <==> exists|i: int| 0 <= i < plan.consumers@.len() && #[trigger] plan.consumers@[i].instance_id.0 == k)
        && (forall|i: int| 0 <= i < plan.consumers@.len() ==> consumer_planned(g0, id.0, a, #[trigger] &plan.consumers@[i]));
    g0.bindings.lemma_view();
    let b = g0.bindings@[k];
    assert(b.spec_key() == k);
    assert(binding_fits(g0, k));
    let (c, j) = choose|c: u64, j: int| #![trigger requirements_of(g0, c)[j]]
        g0.instances@.contains_key(c) && 0 <= j < requirements_of(g0, c).len() && requirements_of(g0, c)[j].id.0 == k;
    let droot = g0.instances@[root].definition_id;
    let def = g0.definitions@[droot.0];
    if c == root {
        assert(plan.definition_id == droot);
        let p = |r: Requirement| g0.bindings@.contains_key(r.id.0);
        let f = |r: Requirement| g0.bindings@[r.id.0];
        def.requirements@.lemma_filter_contains(p, j);
        let filtered = def.requirements@.filter(p);
        let q = choose|q: int| 0 <= q < filtered.len() && filtered[q] == def.requirements@[j];
        assert(own_bindings_of(g0, droot) == filtered.map_values(f));
        assert(plan.own_bindings@[q] == g0.bindings@[k]);
        assert(plan.own_bindings@[q].requirement.0 == k);
        assert(false);
    }
    if b.provider.0 == root {
        crate::removal::lemma_consumer_of_unique(g0, b.requirement, c, j);
        assert(crate::removal::loses_provider(g0, root, a, b));
        assert(a.contains(c));
        let i = choose|i: int| 0 <= i < plan.consumers@.len() && #[trigger] plan.consumers@[i].instance_id.0 == c;
        assert(consumer_planned(g0, id.0, a, &plan.consumers@[i]));
        let pred = |x: Binding| consumer_of(g0, x.requirement) == Some(c) && (x.provider.0 == root || a.contains(x.provider.0));
        assert(lost_bindings(g0, root, a, c) == g0.bindings.seq().filter(pred));
        let t = choose|t: int| 0 <= t < g0.bindings.seq().len() && g0.bindings.seq()[t].spec_key() == k;
        assert(g0.bindings.seq()[t] == b);
        g0.bindings.seq().lemma_filter_contains(pred, t);
        let q = choose|q: int| 0 <= q < plan.consumers@[i].bindings@.len() && plan.consumers@[i].bindings@[q] == b;
        assert(plan.consumers@[i].bindings@[q].requirement.0 == k);
        assert(false);
    }
    c
}

/// Removing an Instance takes away its Capabilities and Requirements only
/// with every Binding that used them, so every kept Binding keeps fitting.
pub proof fn lemma_removal_keeps_fit(g0: GraphState, new: GraphState, id: ComponentInstanceId, plan: RemovalPlan)
    requires
        g0.wf(),
        g0.consistent(),
        bindings_fit(g0),
        g0.instances@.contains_key(id.0),
        removal_planned(g0, id, &plan),
        removal_applied(g0, new, &plan),
    ensures
        bindings_fit(new),
{
    let root = id.0;
    let droot = g0.instances@[root].definition_id.0;
    let def = g0.definitions@[droot];
    assert(plan.definition_id.0 == droot);
    assert(g0.definitions@.contains_key(droot));
    g0.capabilities.lemma_view();
    assert forall|c: u64| #[trigger] new.instances@.contains_key(c) implies g0.instances@.contains_key(c) && c != root
        && requirements_of(new, c) == requirements_of(g0, c) && capabilities_of(new, c) == capabilities_of(g0, c)
        && g0.instances@[c].definition_id.0 != droot by {
        assert(g0.instances@[c].definition_id != g0.instances@[root].definition_id);
    }
    assert forall|c: u64| #[trigger] g0.instances@.contains_key(c) && c != root implies new.instances@.contains_key(c) by {}
    // A key of a Requirement of another living Instance is kept with its record.
    assert forall|c: u64, j: int| g0.instances@.contains_key(c) && c != root && 0 <= j < requirements_of(g0, c).len()
        implies new.requirements@.contains_key((#[trigger] requirements_of(g0, c)[j]).id.0)
            && new.requirements@[requirements_of(g0, c)[j].id.0] == g0.requirements@[requirements_of(g0, c)[j].id.0] by {
        let r = requirements_of(g0, c)[j];
        let dc = g0.instances@[c].definition_id.0;
        assert(g0.instances@[c].definition_id != g0.instances@[root].definition_id);
        assert(g0.requirements@.contains_key(r.id.0));
        if exists|i: int| 0 <= i < def.requirements@.len() && #[trigger] def.requirements@[i].id.0 == r.id.0 {
            let i = choose|i: int| 0 <= i < def.requirements@.len() && #[trigger] def.requirements@[i].id.0 == r.id.0;
            assert(def.requirements@[i].id != g0.definitions@[dc].requirements@[j].id);
        }
    }
    // A key of a Capability of another living Instance is kept with its record.
    assert forall|c: u64, j: int| g0.instances@.contains_key(c) && c != root && 0 <= j < capabilities_of(g0, c).len()
        implies new.capabilities@.contains_key((#[trigger] capabilities_of(g0, c)[j]).id.0)
            && new.capabilities@[capabilities_of(g0, c)[j].id.0] == g0.capabilities@[capabilities_of(g0, c)[j].id.0] by {
        let cap = capabilities_of(g0, c)[j];
        if exists|i: int| 0 <= i < def.capabilities@.len() && #[trigger] def.capabilities@[i].id.0 == cap.id.0 {
            let i = choose|i: int| 0 <= i < def.capabilities@.len() && #[trigger] def.capabilities@[i].id.0 == cap.id.0;
            assert(capabilities_of(g0, root)[i] == def.capabilities@[i]);
            assert(g0.capabilities@[capabilities_of(g0, root)[i].id.0].provider_id.0 == root);
            assert(g0.capabilities@[cap.id.0].provider_id.0 == c);
        }
    }
    assert forall|k: u64| #[trigger] new.bindings@.contains_key(k) implies binding_fits(new, k) by {
        assert(g0.bindings@.contains_key(k) && !plan_drops_binding(&plan, k));
        let c = lemma_kept_binding_elsewhere(g0, id, plan, k);
        let j = choose|j: int| 0 <= j < requirements_of(g0, c).len() && #[trigger] requirements_of(g0, c)[j].id.0 == k;
        let b = g0.bindings@[k];
        assert(binding_fits(g0, k));
        let cb = b.capability.0;
        let pv = g0.capabilities@[cb].provider_id.0;
        assert(published_by_living(g0, cb));
        let jc = choose|jc: int| 0 <= jc < capabilities_of(g0, pv).len() && #[trigger] capabilities_of(g0, pv)[jc] == g0.capabilities@[cb].capability;
        assert(g0.capabilities@[cb].spec_key() == cb);
        assert(capabilities_of(g0, pv)[jc].id.0 == cb);
        assert(pv == b.provider.0 && pv != root);
        assert(new.capabilities@.contains_key(cb) && new.capabilities@[cb] == g0.capabilities@[cb]);
        assert(new.requirements@[k] == g0.requirements@[k]);
        assert(requirements_of(new, c)[j] == requirements_of(g0, c)[j]);
    }
    assert forall|cb: u64| #[trigger] new.capabilities@.contains_key(cb) implies published_by_living(new, cb) by {
        assert(g0.capabilities@.contains_key(cb) && new.capabilities@[cb] == g0.capabilities@[cb]);
        assert(published_by_living(g0, cb));
        let pv = g0.capabilities@[cb].provider_id.0;
        let jc = choose|jc: int| 0 <= jc < capabilities_of(g0, pv).len() && #[trigger] capabilities_of(g0, pv)[jc] == g0.capabilities@[cb].capability;
        assert(g0.capabilities@[cb].spec_key() == cb);
        if pv == root {
            assert(capabilities_of(g0, root)[jc] == def.capabilities@[jc]);
            assert(def.capabilities@[jc].id.0 == cb);
            assert(false);
        }
        assert(new.instances@.contains_key(pv));
        assert(capabilities_of(new, pv) == capabilities_of(g0, pv));
    }
    assert forall|i: u64, j: int| new.instances@.contains_key(i) && 0 <= j < capabilities_of(new, i).len()
        implies new.capabilities@.contains_key((#[trigger] capabilities_of(new, i)[j]).id.0)
            && new.capabilities@[capabilities_of(new, i)[j].id.0].capability == capabilities_of(new, i)[j]
            && new.capabilities@[capabilities_of(new, i)[j].id.0].provider_id.0 == i by {
        assert(capabilities_of(new, i)[j] == capabilities_of(g0, i)[j]);
    }
    assert forall|i: u64, j: int| new.instances@.contains_key(i) && 0 <= j < requirements_of(new, i).len()
        implies new.requirements@.contains_key((#[trigger] requirements_of(new, i)[j]).id.0)
            && new.requirements@[requirements_of(new, i)[j].id.0] == requirements_of(new, i)[j] by {
        assert(requirements_of(new, i)[j] == requirements_of(g0, i)[j]);
    }
}

/// The plan's Instance lives, and each Binding of the plan names a registered
/// Capability of the bound Requirement's contract, under the Capability's own provider.
pub open spec fn plan_fits(g: GraphState, p: PlanView) -> bool {
    g.instances@.contains_key(p.instance_id.0) && forall|j: int| 0 <= j < p.bindings.len() ==> {
        let b = #[trigger] p.bindings[j];
        &&& g.capabilities@.contains_key(b.capability.0)
        &&& g.capabilities@[b.capability.0].provider_id == b.provider
        &&& g.capabilities@[b.capability.0].capability.contract == requirements_of(g, p.instance_id.0)[j].contract
    }
}

/// Activating a plan that binds its Instance's Requirements to fitting Capabilities keeps every Binding fitting.
pub proof fn lemma_activation_keeps_fit(before: GraphState, after: GraphState, plan: PlanView, rid: ComponentRuntimeId)
    requires
        bindings_fit(before),
        activation_applied(before, after, plan, rid),
        plan_fits(before, plan),
        before.instances@.contains_key(plan.instance_id.0) ==> plan.bindings.len() == requirements_of(before, plan.instance_id.0).len()
            && forall|j: int| 0 <= j < plan.bindings.len()
                ==> (#[trigger] plan.bindings[j]).requirement == requirements_of(before, plan.instance_id.0)[j].id,
    ensures
        bindings_fit(after),
{
    let pk = plan.instance_id.0;
    lemma_insert_all_keys(before.bindings@, plan.bindings);
    assert forall|q: u64| #[trigger] before.instances@.contains_key(q) implies after.instances@.contains_key(q)
        && requirements_of(after, q) == requirements_of(before, q) && capabilities_of(after, q) == capabilities_of(before, q) by {
        assert(after.instances@[q].definition_id == before.instances@[q].definition_id);
    }
    assert forall|q: u64| #[trigger] after.instances@.contains_key(q) implies before.instances@.contains_key(q) by {}
    assert forall|k: u64| #[trigger] after.bindings@.contains_key(k) implies binding_fits(after, k) by {
        if exists|i: int| 0 <= i < plan.bindings.len() && plan.bindings[i].spec_key() == k {
            let i = choose|i: int| 0 <= i < plan.bindings.len() && plan.bindings[i].spec_key() == k;
            assert(before.instances@.contains_key(pk));
            let j = lemma_insert_all_value(before.bindings@, plan.bindings, i);
            let b = plan.bindings[j];
            assert(after.bindings@[k] == b);
            let reqs = requirements_of(before, pk);
            assert(b.requirement == reqs[j].id);
            assert(before.requirements@[reqs[j].id.0] == reqs[j]);
            assert(requirements_of(after, pk)[j] == reqs[j]);
        } else {
            assert(before.bindings@.contains_key(k) && after.bindings@[k] == before.bindings@[k]);
            assert(binding_fits(before, k));
            let (c, j) = choose|c: u64, j: int| #![trigger requirements_of(before, c)[j]]
                before.instances@.contains_key(c) && 0 <= j < requirements_of(before, c).len() && requirements_of(before, c)[j].id.0 == k;
            assert(requirements_of(after, c)[j] == requirements_of(before, c)[j]);
        }
    }
    assert forall|c: u64| #[trigger] after.capabilities@.contains_key(c) implies published_by_living(after, c) by {
        assert(published_by_living(before, c));
        assert(before.instances@.contains_key(before.capabilities@[c].provider_id.0));
    }
    assert forall|i: u64, j: int| after.instances@.contains_key(i) && 0 <= j < capabilities_of(after, i).len()
        implies after.capabilities@.contains_key((#[trigger] capabilities_of(after, i)[j]).id.0)
            && after.capabilities@[capabilities_of(after, i)[j].id.0].capability == capabilities_of(after, i)[j]
            && after.capabilities@[capabilities_of(after, i)[j].id.0].provider_id.0 == i by {
        assert(before.instances@.contains_key(i));
        assert(capabilities_of(after, i)[j] == capabilities_of(before, i)[j]);
    }
    assert forall|i: u64, j: int| after.instances@.contains_key(i) && 0 <= j < requirements_of(after, i).len()
        implies after.requirements@.contains_key((#[trigger] requirements_of(after, i)[j]).id.0)
            && after.requirements@[requirements_of(after, i)[j].id.0] == requirements_of(after, i)[j] by {
        assert(before.instances@.contains_key(i));
        assert(requirements_of(after, i)[j] == requirements_of(before, i)[j]);
    }
}

/// Every plan of a front is one of the plans the fronts were formed from.
pub proof fn lemma_fronts_members(plans: Seq<PlanView>, completed: Set<u64>, i: int, j: int)
    requires
        0 <= i < fronts_from(plans, completed).len(),
        0 <= j < fronts_from(plans, completed)[i].len(),
    ensures
        plans.contains(fronts_from(plans, completed)[i][j]),
    decreases plans.len(),
{
    let ready = plans.filter(ready_in(completed));
    let rest = plans.filter(waiting_in(completed));
    crate::resolution::lemma_filter_partition(plans, ready_in(completed), waiting_in(completed));
    let later = fronts_from(rest, completed + plan_ids(ready));
    assert(fronts_from(plans, completed) == seq![ready] + later);
    if i == 0 {
        plans.lemma_filter_contains_rev(ready_in(completed), ready[j]);
    } else {
        lemma_fronts_members(rest, completed + plan_ids(ready), i - 1, j);
        plans.lemma_filter_contains_rev(waiting_in(completed), later[i - 1][j]);
    }
}

/// Every plan of the flattened fronts is a plan of some front.
pub proof fn lemma_flat_fronts_members(fronts: Seq<Seq<PlanView>>, q: int)
    requires
        0 <= q < flat_fronts(fronts).len(),
    ensures
        exists|i: int, j: int| 0 <= i < fronts.len() && 0 <= j < fronts[i].len() && fronts[i][j] == flat_fronts(fronts)[q],
    decreases fronts.len(),
{
    let t = fronts.drop_last();
    let n = flat_fronts(t).len();
    if q < n {
        lemma_flat_fronts_members(t, q);
        let (i, j) = choose|i: int, j: int| 0 <= i < t.len() && 0 <= j < t[i].len() && t[i][j] == flat_fronts(t)[q];
        assert(fronts[i] == t[i]);
    } else {
        assert(fronts[fronts.len() - 1][q - n] == flat_fronts(fronts)[q]);
    }
}

/// The Bindings of an allow-all plan resolve Requirements registered in the graph.
pub proof fn lemma_default_plan_requirements(g: GraphState, cs: Set<u64>, plans: Seq<PlanView>, p: PlanView)
    requires
        g.consistent(),
        default_plans(g, cs, plans),
        plans.contains(p),
    ensures
        forall|i: int| 0 <= i < p.bindings.len() ==> g.requirements@.contains_key(#[trigger] p.bindings[i].requirement.0),
{
    let idx = choose|idx: int| 0 <= idx < plans.len() && plans[idx] == p;
    let k = p.instance_id.0;
    assert(default_plan_exists(g, cs, plans[idx].instance_id.0) && is_default_plan(g, cs, plans[idx].instance_id.0, plans[idx]));
    let reqs = requirements_of(g, k);
    assert forall|i: int| 0 <= i < p.bindings.len() implies g.requirements@.contains_key(#[trigger] p.bindings[i].requirement.0) by {
        assert(default_binding(g, reqs[i], cs) is Some);
        assert(p.bindings[i] == default_binding(g, reqs[i], cs)->0);
        assert(p.bindings[i].requirement == reqs[i].id);
        let d = g.instances@[k].definition_id.0;
        assert(g.definitions@[d].requirements@[i] == reqs[i]);
    }
}

} // verus!
