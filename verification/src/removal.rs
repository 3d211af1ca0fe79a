//! Cleanup plan for removing a Component Instance and the consumers that lose it.
use vstd::prelude::*;
use crate::error::KernelError;
use crate::graph::{GraphState, subscription_before, subscriptions_sorted};
use crate::mailbox::Subscription;
use crate::identity::{ComponentDefinitionId, ComponentInstanceId, EffectId, RequirementId};
use crate::keyed::{Keyed, KeyedVec, lemma_push_contains, lemma_remove_keys_take, remove_keys};
use crate::search::{first_where, lemma_first_where_at, lemma_first_where_none};
use crate::system::{Binding, ComponentInstance, Effect, ResolutionState};

verus! {

/// The Definition of the Instance at position `i` declares Requirement `rid`.
pub open spec fn declares_requirement(g: GraphState, i: int, rid: RequirementId) -> bool {
    let inst = g.instances.seq()[i];
    g.definitions@.contains_key(inst.definition_id.0)
        && exists|j: int| 0 <= j < g.definitions@[inst.definition_id.0].requirements@.len()
            && #[trigger] g.definitions@[inst.definition_id.0].requirements@[j].id == rid
}

/// The first living Instance, in identity order, whose Definition owns Requirement `rid`.
pub open spec fn consumer_of(g: GraphState, rid: RequirementId) -> Option<u64> {
    match first_where(g.instances.seq().len() as int, |i: int| declares_requirement(g, i, rid)) {
        Some(i) => Some(g.instances.seq()[i].id.0),
        None => None,
    }
}

/// The Instance `consumer_of` names lives, and its Definition declares the Requirement.
pub proof fn lemma_consumer_of_declares(g: GraphState, rid: RequirementId)
    requires
        g.wf(),
    ensures
        consumer_of(g, rid) matches Some(c) ==> g.instances@.contains_key(c)
            && g.definitions@.contains_key(g.instances@[c].definition_id.0)
            && exists|j: int| 0 <= j < g.definitions@[g.instances@[c].definition_id.0].requirements@.len()
                && #[trigger] g.definitions@[g.instances@[c].definition_id.0].requirements@[j].id == rid,
{
    crate::search::lemma_first_where_found(g.instances.seq().len() as int, |i: int| declares_requirement(g, i, rid));
    g.instances.lemma_view();
    match first_where(g.instances.seq().len() as int, |i: int| declares_requirement(g, i, rid)) {
        Some(i) => {
            assert(declares_requirement(g, i, rid));
            let inst = g.instances.seq()[i];
            assert(g.instances@[inst.spec_key()] == inst);
        },
        None => {},
    }
}

/// In a consistent graph the living Instance whose Definition declares a
/// Requirement is the one `consumer_of` names.
pub proof fn lemma_consumer_of_unique(g: GraphState, rid: RequirementId, c: u64, j: int)
    requires
        g.wf(),
        g.consistent(),
        g.instances@.contains_key(c),
        0 <= j < g.definitions@[g.instances@[c].definition_id.0].requirements@.len(),
        g.definitions@[g.instances@[c].definition_id.0].requirements@[j].id == rid,
    ensures
        consumer_of(g, rid) == Some(c),
{
    g.instances.lemma_view();
    let x = choose|x: int| 0 <= x < g.instances.seq().len() && g.instances.seq()[x].spec_key() == c;
    assert(g.instances@[c] == g.instances.seq()[x]);
    assert(declares_requirement(g, x, rid));
    crate::search::lemma_first_where_some(g.instances.seq().len() as int, |i: int| declares_requirement(g, i, rid), x);
    lemma_consumer_of_declares(g, rid);
    let c2 = consumer_of(g, rid)->0;
    let d1 = g.instances@[c].definition_id.0;
    let d2 = g.instances@[c2].definition_id.0;
    let j2 = choose|j2: int| 0 <= j2 < g.definitions@[d2].requirements@.len() && #[trigger] g.definitions@[d2].requirements@[j2].id == rid;
    if c2 != c {
        assert(g.instances@[c].definition_id != g.instances@[c2].definition_id);
        assert(g.definitions@[d1].requirements@[j].id != g.definitions@[d2].requirements@[j2].id);
    }
}

/// A Binding makes its consumer lose a provider when the provider disappears or is affected.
pub open spec fn loses_provider(g: GraphState, root: u64, a: Set<u64>, b: Binding) -> bool {
    consumer_of(g, b.requirement) matches Some(c) && c != root && (b.provider.0 == root || a.contains(b.provider.0))
}

/// Every consumer losing a provider of `a` or the removed `root` is in `a`.
pub open spec fn removal_closed(g: GraphState, root: u64, a: Set<u64>) -> bool {
    forall|k: u64| #[trigger] g.bindings@.contains_key(k) && loses_provider(g, root, a, g.bindings@[k])
        ==> a.contains(consumer_of(g, g.bindings@[k].requirement)->0)
}

/// `a` is the least set of consumers transitively losing a provider when `root` disappears.
pub open spec fn is_removal_closure(g: GraphState, root: u64, a: Set<u64>) -> bool {
    &&& removal_closed(g, root, a)
    &&& forall|s: Set<u64>| removal_closed(g, root, s) ==> #[trigger] a.subset_of(s)
}

/// Cleanup required for one consumer bound to a disappearing provider.
#[derive(Debug)]
pub struct ConsumerDeactivation {
    /// Active consumer that must return to Pending.
    pub instance_id: ComponentInstanceId,
    /// Bindings to the disappearing providers.
    pub bindings: Vec<Binding>,
    /// Effects governed by the consumer lifecycle.
    pub effects: Vec<EffectId>,
}

/// Complete cleanup required before one Instance can disappear.
#[derive(Debug)]
pub struct RemovalPlan {
    /// Component Instance removed by the Event.
    pub instance_id: ComponentInstanceId,
    /// Definition owned by the removed occurrence.
    pub definition_id: ComponentDefinitionId,
    /// Stable resolution state observed before removal.
    pub previous: ResolutionState,
    /// Consumers that depend on Capabilities published by the removed Instance.
    pub consumers: Vec<ConsumerDeactivation>,
    /// Bindings owned by Requirements of the removed Instance itself.
    pub own_bindings: Vec<Binding>,
    /// Effects governed by the removed Instance lifecycle.
    pub effects: Vec<EffectId>,
}

/// The identities of the Effects owned by `owner`, in identity order.
pub open spec fn owned_effects(g: GraphState, owner: ComponentInstanceId) -> Seq<EffectId> {
    g.effects.seq().filter(|e: Effect| e.owner == owner).map_values(|e: Effect| e.id)
}

impl GraphState {
    /// Collects Effects governed by one Component Instance lifecycle.
    pub fn effect_ids(&self, owner: ComponentInstanceId) -> (r: Vec<EffectId>)
        requires
            self.wf(),
        ensures
            r@ == owned_effects(*self, owner),
    {
        let ghost s = self.effects.seq();
        let ghost p = |e: Effect| e.owner == owner;
        let ghost f = |e: Effect| e.id;
        let mut out: Vec<EffectId> = Vec::new();
        let mut i: usize = 0;
        while i < self.effects.len()
            invariant
                self.wf(),
                s == self.effects.seq(),
                p == (|e: Effect| e.owner == owner),
                f == (|e: Effect| e.id),
                i <= s.len(),
                out@ == s.take(i as int).filter(p).map_values(f),
            decreases s.len() - i,
        {
            let e = *self.effects.at(i);
            proof {
                assert(s.take(i as int + 1) =~= s.take(i as int).push(e));
                s.take(i as int).lemma_filter_push(e, p);
            }
            if e.owner == owner {
                out.push(e.id);
                proof {
                    let old_f = s.take(i as int).filter(p);
                    assert(old_f.push(e).map_values(f) =~= old_f.map_values(f).push(f(e)));
                }
            }
            i += 1;
        }
        assert(s.take(s.len() as int) =~= s);
        out
    }

    /// Finds the living Instance whose Definition owns a Requirement Binding.
    pub fn consumer_for(&self, binding: &Binding) -> (r: Option<ComponentInstanceId>)
        requires
            self.wf(),
        ensures
            match consumer_of(*self, binding.requirement) {
                Some(k) => r matches Some(id) && id.0 == k && self.instances@.contains_key(k),
                None => r is None,
            },
    {
        let ghost p = |i: int| declares_requirement(*self, i, binding.requirement);
        let mut i: usize = 0;
        while i < self.instances.len()
            invariant
                self.wf(),
                p == (|i: int| declares_requirement(*self, i, binding.requirement)),
                i <= self.instances.seq().len(),
                forall|j: int| 0 <= j < i ==> !#[trigger] p(j),
            decreases self.instances.seq().len() - i,
        {
            let instance = *self.instances.at(i);
            let declares = match self.definitions.get(instance.definition_id.0) {
                Some(definition) => {
                    let mut found = false;
                    let mut j: usize = 0;
                    while j < definition.requirements.len() && !found
                        invariant
                            j <= definition.requirements@.len(),
                            found ==> exists|q: int| 0 <= q < definition.requirements@.len() && definition.requirements@[q].id == binding.requirement,
                            !found ==> forall|q: int| 0 <= q < j ==> #[trigger] definition.requirements@[q].id != binding.requirement,
                        decreases definition.requirements@.len() - j,
                    {
                        if definition.requirements[j].id == binding.requirement {
                            found = true;
                        }
                        j += 1;
                    }
                    found
                },
                None => false,
            };
            if declares {
                proof {
                    assert(p(i as int));
                    lemma_first_where_at(self.instances.seq().len() as int, p, i as int);
                    self.instances.lemma_view();
                    assert(self.instances@.contains_key(self.instances.seq()[i as int].spec_key()));
                }
                return Some(instance.id);
            }
            assert(!p(i as int));
            i += 1;
        }
        proof {
            lemma_first_where_none(self.instances.seq().len() as int, p);
        }
        None
    }

    /// The first Binding, in Requirement order, whose consumer newly loses a provider.
    pub fn next_lost_consumer(&self, root: ComponentInstanceId, affected: &KeyedVec<ComponentInstanceId>) -> (r: Option<ComponentInstanceId>)
        requires
            self.wf(),
            affected.wf(),
        ensures
            r matches Some(c) ==> !affected@.contains_key(c.0) && exists|k: u64| #[trigger] self.bindings@.contains_key(k)
                && loses_provider(*self, root.0, affected@.dom(), self.bindings@[k])
                && consumer_of(*self, self.bindings@[k].requirement) == Some(c.0),
            r is None ==> removal_closed(*self, root.0, affected@.dom()),
    {
        proof {
            self.bindings.lemma_view();
        }
        let mut i: usize = 0;
        while i < self.bindings.len()
            invariant
                self.wf(),
                affected.wf(),
                i <= self.bindings.seq().len(),
                forall|j: int| 0 <= j < i && #[trigger] loses_provider(*self, root.0, affected@.dom(), self.bindings.seq()[j])
                    ==> affected@.contains_key(consumer_of(*self, self.bindings.seq()[j].requirement)->0),
            decreases self.bindings.seq().len() - i,
        {
            let b = *self.bindings.at(i);
            match self.consumer_for(&b) {
                Some(c) => {
                    if (b.provider == root || affected.contains_key(b.provider.0)) && c != root && !affected.contains_key(c.0) {
                        proof {
                            self.bindings.lemma_view();
                            assert(self.bindings@.contains_key(self.bindings.seq()[i as int].spec_key()));
                        }
                        return Some(c);
                    }
                },
                None => {},
            }
            i += 1;
        }
        proof {
            self.bindings.lemma_view();
            assert forall|k: u64| #[trigger] self.bindings@.contains_key(k) && loses_provider(*self, root.0, affected@.dom(), self.bindings@[k])
                implies affected@.dom().contains(consumer_of(*self, self.bindings@[k].requirement)->0) by {
                let j = choose|j: int| 0 <= j < self.bindings.seq().len() && self.bindings.seq()[j].spec_key() == k;
                assert(self.bindings.seq()[j] == self.bindings@[k]);
            }
        }
        None
    }

    /// Computes the transitive closure of consumers losing an Active provider.
    pub fn affected_instance_ids(&self, root: ComponentInstanceId) -> (r: KeyedVec<ComponentInstanceId>)
        requires
            self.wf(),
        ensures
            r.wf(),
            is_removal_closure(*self, root.0, r@.dom()),
            forall|k: u64| #[trigger] r@.contains_key(k) ==> r@[k].0 == k && self.instances@.contains_key(k),
    {
        let mut affected: KeyedVec<ComponentInstanceId> = KeyedVec::new();
        proof {
            self.instances.lemma_view();
            assert(affected@.dom() =~= Set::<u64>::empty());
        }
        loop
            invariant
                self.wf(),
                affected.wf(),
                self.instances@.dom().finite(),
                forall|k: u64| #[trigger] affected@.contains_key(k) ==> affected@[k].0 == k && self.instances@.contains_key(k),
                forall|s: Set<u64>| removal_closed(*self, root.0, s) ==> #[trigger] affected@.dom().subset_of(s),
            ensures
                affected.wf(),
                removal_closed(*self, root.0, affected@.dom()),
                forall|k: u64| #[trigger] affected@.contains_key(k) ==> affected@[k].0 == k && self.instances@.contains_key(k),
                forall|s: Set<u64>| removal_closed(*self, root.0, s) ==> #[trigger] affected@.dom().subset_of(s),
            decreases self.instances@.dom().difference(affected@.dom()).len(),
        {
            match self.next_lost_consumer(root, &affected) {
                None => {
                    break;
                },
                Some(c) => {
                    let ghost before = affected@.dom();
                    proof {
                        let k = choose|k: u64| #[trigger] self.bindings@.contains_key(k)
                            && loses_provider(*self, root.0, before, self.bindings@[k])
                            && consumer_of(*self, self.bindings@[k].requirement) == Some(c.0);
                        let rid = self.bindings@[k].requirement;
                        let i = first_where(self.instances.seq().len() as int, |i: int| declares_requirement(*self, i, rid))->0;
                        assert forall|s: Set<u64>| removal_closed(*self, root.0, s) implies #[trigger] before.insert(c.0).subset_of(s) by {
                            assert(before.subset_of(s));
                            assert(loses_provider(*self, root.0, s, self.bindings@[k]));
                        }
                        crate::search::lemma_first_where_some(self.instances.seq().len() as int, |i: int| declares_requirement(*self, i, rid),
                            choose|i: int| 0 <= i < self.instances.seq().len() && declares_requirement(*self, i, rid));
                        self.instances.lemma_view();
                        assert(self.instances@.contains_key(self.instances.seq()[i].spec_key()));
                        self.instances@.dom().lemma_set_insert_diff_decreases(before, c.0);
                    }
                    affected.insert(c);
                    assert(affected@.dom() =~= before.insert(c.0));
                },
            }
        }
        affected
    }
}


/// The Bindings a consumer loses when `root` disappears and the consumers of `a` deactivate.
pub open spec fn lost_bindings(g: GraphState, root: u64, a: Set<u64>, c: u64) -> Seq<Binding> {
    g.bindings.seq().filter(|b: Binding| consumer_of(g, b.requirement) == Some(c) && (b.provider.0 == root || a.contains(b.provider.0)))
}

/// The Bindings owned by the Requirements of a Definition, in declaration order.
pub open spec fn own_bindings_of(g: GraphState, definition_id: ComponentDefinitionId) -> Seq<Binding> {
    if g.definitions@.contains_key(definition_id.0) {
        g.definitions@[definition_id.0].requirements@
            .filter(|r: crate::system::Requirement| g.bindings@.contains_key(r.id.0))
            .map_values(|r: crate::system::Requirement| g.bindings@[r.id.0])
    } else {
        Seq::empty()
    }
}

/// The cleanup planned for one consumer.
pub open spec fn consumer_planned(g: GraphState, root: u64, a: Set<u64>, c: &ConsumerDeactivation) -> bool {
    &&& c.bindings@ == lost_bindings(g, root, a, c.instance_id.0)
    &&& c.effects@ == owned_effects(g, c.instance_id)
}

/// The removal plan of the Instance `id` in graph `g`.
pub open spec fn removal_planned(g: GraphState, id: ComponentInstanceId, plan: &RemovalPlan) -> bool {
    let inst = g.instances@[id.0];
    &&& plan.instance_id == id
    &&& plan.definition_id == inst.definition_id
    &&& plan.previous == inst.resolution
    &&& exists|a: Set<u64>| is_removal_closure(g, id.0, a)
        && (forall|i: int, j: int| 0 <= i < j < plan.consumers@.len() ==> #[trigger] plan.consumers@[i].instance_id.0 < #[trigger] plan.consumers@[j].instance_id.0)
        && (forall|k: u64| a.contains(k) <==> exists|i: int| 0 <= i < plan.consumers@.len() && #[trigger] plan.consumers@[i].instance_id.0 == k)
        && (forall|i: int| 0 <= i < plan.consumers@.len() ==> consumer_planned(g, id.0, a, #[trigger] &plan.consumers@[i]))
    &&& plan.own_bindings@ == own_bindings_of(g, inst.definition_id)
    &&& plan.effects@ == owned_effects(g, id)
}

impl GraphState {
    /// Collects the Bindings that one consumer loses.
    pub fn lost_bindings_of(&self, root: ComponentInstanceId, affected: &KeyedVec<ComponentInstanceId>, consumer: ComponentInstanceId) -> (r: Vec<Binding>)
        requires
            self.wf(),
            affected.wf(),
        ensures
            r@ == lost_bindings(*self, root.0, affected@.dom(), consumer.0),
    {
        let ghost s = self.bindings.seq();
        let ghost a = affected@.dom();
        let ghost p = |b: Binding| consumer_of(*self, b.requirement) == Some(consumer.0) && (b.provider.0 == root.0 || a.contains(b.provider.0));
        let mut out: Vec<Binding> = Vec::new();
        let mut i: usize = 0;
        while i < self.bindings.len()
            invariant
                self.wf(),
                affected.wf(),
                a == affected@.dom(),
                s == self.bindings.seq(),
                p == (|b: Binding| consumer_of(*self, b.requirement) == Some(consumer.0) && (b.provider.0 == root.0 || a.contains(b.provider.0))),
                i <= s.len(),
                out@ == s.take(i as int).filter(p),
            decreases s.len() - i,
        {
            let b = *self.bindings.at(i);
            let keep = match self.consumer_for(&b) {
                Some(c) => c == consumer && (b.provider == root || affected.contains_key(b.provider.0)),
                None => false,
            };
            proof {
                assert(keep == p(b));
                assert(s.take(i as int + 1) =~= s.take(i as int).push(b));
                s.take(i as int).lemma_filter_push(b, p);
            }
            if keep {
                out.push(b);
            }
            i += 1;
        }
        assert(s.take(s.len() as int) =~= s);
        out
    }

    /// Collects Bindings owned by Requirements of one Definition.
    pub fn bindings_for_definition(&self, definition_id: ComponentDefinitionId) -> (r: Vec<Binding>)
        requires
            self.wf(),
        ensures
            r@ == own_bindings_of(*self, definition_id),
    {
        let mut out: Vec<Binding> = Vec::new();
        match self.definitions.get(definition_id.0) {
            None => {
                assert(out@ =~= own_bindings_of(*self, definition_id));
                out
            },
            Some(definition) => {
                let ghost s = definition.requirements@;
                let ghost p = |r: crate::system::Requirement| self.bindings@.contains_key(r.id.0);
                let ghost f = |r: crate::system::Requirement| self.bindings@[r.id.0];
                let mut i: usize = 0;
                while i < definition.requirements.len()
                    invariant
                        self.wf(),
                        s == definition.requirements@,
                        p == (|r: crate::system::Requirement| self.bindings@.contains_key(r.id.0)),
                        f == (|r: crate::system::Requirement| self.bindings@[r.id.0]),
                        i <= s.len(),
                        out@ == s.take(i as int).filter(p).map_values(f),
                    decreases s.len() - i,
                {
                    let req = definition.requirements[i];
                    proof {
                        assert(s.take(i as int + 1) =~= s.take(i as int).push(req));
                        s.take(i as int).lemma_filter_push(req, p);
                    }
                    match self.bindings.get(req.id.0) {
                        Some(b) => {
                            out.push(*b);
                            proof {
                                let old_f = s.take(i as int).filter(p);
                                assert(old_f.push(req).map_values(f) =~= old_f.map_values(f).push(f(req)));
                            }
                        },
                        None => {},
                    }
                    i += 1;
                }
                assert(s.take(s.len() as int) =~= s);
                out
            },
        }
    }

    /// Groups Bindings by consumers selected against the disappearing provider.
    pub fn affected_consumers(&self, provider_id: ComponentInstanceId) -> (r: Vec<ConsumerDeactivation>)
        requires
            self.wf(),
        ensures
            exists|a: Set<u64>| is_removal_closure(*self, provider_id.0, a)
                && (forall|i: int, j: int| 0 <= i < j < r@.len() ==> #[trigger] r@[i].instance_id.0 < #[trigger] r@[j].instance_id.0)
                && (forall|k: u64| a.contains(k) <==> exists|i: int| 0 <= i < r@.len() && #[trigger] r@[i].instance_id.0 == k)
                && (forall|i: int| 0 <= i < r@.len() ==> consumer_planned(*self, provider_id.0, a, #[trigger] &r@[i])),
    {
        let affected = self.affected_instance_ids(provider_id);
        let ghost a = affected@.dom();
        let ghost order = affected.seq();
        proof {
            affected.lemma_view();
        }
        let mut out: Vec<ConsumerDeactivation> = Vec::new();
        let mut i: usize = 0;
        while i < affected.len()
            invariant
                self.wf(),
                affected.wf(),
                a == affected@.dom(),
                order == affected.seq(),
                i <= order.len(),
                out@.len() == i,
                forall|j: int| 0 <= j < i ==> #[trigger] out@[j].instance_id == order[j],
                forall|j: int| 0 <= j < i ==> consumer_planned(*self, provider_id.0, a, #[trigger] &out@[j]),
            decreases order.len() - i,
        {
            let c = *affected.at(i);
            let bindings = self.lost_bindings_of(provider_id, &affected, c);
            let effects = self.effect_ids(c);
            out.push(ConsumerDeactivation { instance_id: c, bindings, effects });
            i += 1;
        }
        proof {
            affected.lemma_view();
            assert forall|x: int, y: int| 0 <= x < y < out@.len() implies #[trigger] out@[x].instance_id.0 < #[trigger] out@[y].instance_id.0 by {
                assert(order[x].spec_key() < order[y].spec_key());
            }
            assert forall|k: u64| a.contains(k) <==> exists|x: int| 0 <= x < out@.len() && #[trigger] out@[x].instance_id.0 == k by {
                if a.contains(k) {
                    let x = choose|x: int| 0 <= x < order.len() && order[x].spec_key() == k;
                    assert(out@[x].instance_id.0 == k);
                }
                if exists|x: int| 0 <= x < out@.len() && #[trigger] out@[x].instance_id.0 == k {
                    let x = choose|x: int| 0 <= x < out@.len() && #[trigger] out@[x].instance_id.0 == k;
                    assert(affected@.contains_key(order[x].spec_key()));
                }
            }
        }
        out
    }

    /// Derives all Driver stops and graph cleanup caused by Instance removal.
    pub fn removal_plan(&self, instance_id: ComponentInstanceId) -> (r: Result<RemovalPlan, KernelError>)
        requires
            self.wf(),
        ensures
            !self.instances@.contains_key(instance_id.0) ==> r == Err::<RemovalPlan, KernelError>(KernelError::UnknownComponentInstance(instance_id)),
            self.instances@.contains_key(instance_id.0) ==> (r matches Ok(plan) && removal_planned(*self, instance_id, &plan)),
    {
        let instance = match self.instances.get(instance_id.0) {
            Some(instance) => *instance,
            None => {
                return Err(KernelError::UnknownComponentInstance(instance_id));
            },
        };
        let definition_id = instance.definition_id;
        let consumers = self.affected_consumers(instance_id);
        let own_bindings = self.bindings_for_definition(definition_id);
        let effects = self.effect_ids(instance_id);
        Ok(RemovalPlan { instance_id, definition_id, previous: instance.resolution, consumers, own_bindings, effects })
    }
}

/// The plan deactivates the consumer carrying key `k`.
pub open spec fn plan_consumer(plan: &RemovalPlan, k: u64) -> bool {
    exists|i: int| 0 <= i < plan.consumers@.len() && #[trigger] plan.consumers@[i].instance_id.0 == k
}

/// One of the first `n` consumers of the plan carries key `k`.
pub open spec fn consumer_among(plan: &RemovalPlan, n: int, k: u64) -> bool {
    exists|i: int| 0 <= i < n && #[trigger] plan.consumers@[i].instance_id.0 == k
}

/// The plan releases the Runtime lifecycle of the Instance carrying key `k`.
pub open spec fn plan_released(plan: &RemovalPlan, k: u64) -> bool {
    plan_consumer(plan, k) || k == plan.instance_id.0
}

/// The plan drops the Binding of Requirement key `k`.
pub open spec fn plan_drops_binding(plan: &RemovalPlan, k: u64) -> bool {
    (exists|i: int, j: int| 0 <= i < plan.consumers@.len() && 0 <= j < plan.consumers@[i].bindings@.len()
        && #[trigger] plan.consumers@[i].bindings@[j].requirement.0 == k)
    || (exists|j: int| 0 <= j < plan.own_bindings@.len() && #[trigger] plan.own_bindings@[j].requirement.0 == k)
}

/// The plan drops the Effect of key `k`.
pub open spec fn plan_drops_effect(plan: &RemovalPlan, k: u64) -> bool {
    (exists|i: int, j: int| 0 <= i < plan.consumers@.len() && 0 <= j < plan.consumers@[i].effects@.len()
        && #[trigger] plan.consumers@[i].effects@[j].0 == k)
    || (exists|j: int| 0 <= j < plan.effects@.len() && #[trigger] plan.effects@[j].0 == k)
}

/// The graph after applying a removal plan.
pub open spec fn removal_applied(old: GraphState, new: GraphState, plan: &RemovalPlan) -> bool {
    let removed_def = old.definitions@.contains_key(plan.definition_id.0);
    let def = old.definitions@[plan.definition_id.0];
    &&& new.bindings@ == old.bindings@.restrict(Set::new(|k: u64| !plan_drops_binding(plan, k)))
    &&& new.effects@ == old.effects@.restrict(Set::new(|k: u64| !plan_drops_effect(plan, k)))
    &&& new.runtimes@ == old.runtimes@.restrict(Set::new(|k: u64| !plan_released(plan, k)))
    &&& new.instances@ == Map::new(
        |k: u64| old.instances@.contains_key(k) && k != plan.instance_id.0,
        |k: u64| if plan_consumer(plan, k) {
            ComponentInstance { resolution: ResolutionState::Pending, ..old.instances@[k] }
        } else {
            old.instances@[k]
        },
    )
    &&& new.rooms@ == old.rooms@.restrict(Set::new(|a: u64| !plan_released(plan, old.rooms@[a].owner.0)))
    &&& new.subscriptions@ == old.subscriptions@.filter(|s: crate::mailbox::Subscription| !plan_released(plan, s.subscriber.0))
    &&& new.definitions@ == old.definitions@.remove(plan.definition_id.0)
    &&& new.requirements@ == (if removed_def {
        old.requirements@.restrict(Set::new(|k: u64| !exists|j: int| 0 <= j < def.requirements@.len() && #[trigger] def.requirements@[j].id.0 == k))
    } else {
        old.requirements@
    })
    &&& new.capabilities@ == (if removed_def {
        old.capabilities@.restrict(Set::new(|k: u64| !exists|j: int| 0 <= j < def.capabilities@.len() && #[trigger] def.capabilities@[j].id.0 == k))
    } else {
        old.capabilities@
    })
    &&& new.contexts@ == old.contexts@
    &&& new.facet_schemas@ == old.facet_schemas@
    &&& new.facets@ == old.facets@
}

/// Keys listed by a sequence, as a set, agree with the keys a predicate describes.
pub proof fn lemma_remove_keys_restrict<T>(m: Map<u64, T>, ks: Seq<u64>, keep: Set<u64>)
    requires
        forall|k: u64| #[trigger] m.contains_key(k) ==> (ks.contains(k) <==> !keep.contains(k)),
    ensures
        remove_keys(m, ks) == m.restrict(keep),
{
    assert forall|k: u64| #[trigger] ks.to_set().contains(k) <==> ks.contains(k) by {}
    assert(remove_keys(m, ks) =~= m.restrict(keep));
}

impl GraphState {
    /// Reports whether the plan releases the Runtime of the Instance carrying `k`.
    pub fn plan_releases(plan: &RemovalPlan, k: u64) -> (r: bool)
        ensures
            r == plan_released(plan, k),
    {
        if plan.instance_id.0 == k {
            return true;
        }
        let mut i: usize = 0;
        while i < plan.consumers.len()
            invariant
                i <= plan.consumers@.len(),
                forall|j: int| 0 <= j < i ==> #[trigger] plan.consumers@[j].instance_id.0 != k,
            decreases plan.consumers@.len() - i,
        {
            if plan.consumers[i].instance_id.0 == k {
                return true;
            }
            i += 1;
        }
        false
    }

    /// Every Binding key dropped by a plan.
    pub fn dropped_binding_keys(plan: &RemovalPlan) -> (r: Vec<u64>)
        ensures
            forall|k: u64| #[trigger] r@.contains(k) <==> plan_drops_binding(plan, k),
    {
        let mut keys: Vec<u64> = Vec::new();
        let mut i: usize = 0;
        while i < plan.consumers.len()
            invariant
                i <= plan.consumers@.len(),
                forall|k: u64| #[trigger] keys@.contains(k) <==> exists|a: int, j: int| 0 <= a < i && 0 <= j < plan.consumers@[a].bindings@.len()
                    && #[trigger] plan.consumers@[a].bindings@[j].requirement.0 == k,
            decreases plan.consumers@.len() - i,
        {
            let consumer = &plan.consumers[i];
            let mut j: usize = 0;
            while j < consumer.bindings.len()
                invariant
                    i < plan.consumers@.len(),
                    *consumer == plan.consumers@[i as int],
                    j <= consumer.bindings@.len(),
                    forall|k: u64| #[trigger] keys@.contains(k) <==> (exists|a: int, q: int| 0 <= a < i && 0 <= q < plan.consumers@[a].bindings@.len()
                        && #[trigger] plan.consumers@[a].bindings@[q].requirement.0 == k)
                        || (exists|q: int| 0 <= q < j && #[trigger] consumer.bindings@[q].requirement.0 == k),
                decreases consumer.bindings@.len() - j,
            {
                let ghost before = keys@;
                keys.push(consumer.bindings[j].requirement.0);
                proof {
                    assert forall|k: u64| #[trigger] keys@.contains(k) <==> before.contains(k) || k == consumer.bindings@[j as int].requirement.0 by {
                        if keys@.contains(k) {
                            let x = choose|x: int| 0 <= x < keys@.len() && keys@[x] == k;
                            if x < before.len() {
                                assert(before[x] == k);
                            }
                        }
                        if before.contains(k) {
                            let x = choose|x: int| 0 <= x < before.len() && before[x] == k;
                            assert(keys@[x] == k);
                        }
                        if k == consumer.bindings@[j as int].requirement.0 {
                            assert(keys@[before.len() as int] == k);
                        }
                    }
                }
                j += 1;
            }
            i += 1;
        }
        let mut j: usize = 0;
        while j < plan.own_bindings.len()
            invariant
                j <= plan.own_bindings@.len(),
                forall|k: u64| #[trigger] keys@.contains(k) <==> (exists|a: int, q: int| 0 <= a < plan.consumers@.len() && 0 <= q < plan.consumers@[a].bindings@.len()
                    && #[trigger] plan.consumers@[a].bindings@[q].requirement.0 == k)
                    || (exists|q: int| 0 <= q < j && #[trigger] plan.own_bindings@[q].requirement.0 == k),
            decreases plan.own_bindings@.len() - j,
        {
            let ghost before = keys@;
            keys.push(plan.own_bindings[j].requirement.0);
            proof {
                assert forall|k: u64| #[trigger] keys@.contains(k) <==> before.contains(k) || k == plan.own_bindings@[j as int].requirement.0 by {
                    if keys@.contains(k) {
                        let x = choose|x: int| 0 <= x < keys@.len() && keys@[x] == k;
                        if x < before.len() {
                            assert(before[x] == k);
                        }
                    }
                    if before.contains(k) {
                        let x = choose|x: int| 0 <= x < before.len() && before[x] == k;
                        assert(keys@[x] == k);
                    }
                    if k == plan.own_bindings@[j as int].requirement.0 {
                        assert(keys@[before.len() as int] == k);
                    }
                }
            }
            j += 1;
        }
        keys
    }
}

impl GraphState {
    /// Every Effect key dropped by a plan.
    pub fn dropped_effect_keys(plan: &RemovalPlan) -> (r: Vec<u64>)
        ensures
            forall|k: u64| #[trigger] r@.contains(k) <==> plan_drops_effect(plan, k),
    {
        let mut keys: Vec<u64> = Vec::new();
        let mut i: usize = 0;
        while i < plan.consumers.len()
            invariant
                i <= plan.consumers@.len(),
                forall|k: u64| #[trigger] keys@.contains(k) <==> exists|a: int, j: int| 0 <= a < i && 0 <= j < plan.consumers@[a].effects@.len()
                    && #[trigger] plan.consumers@[a].effects@[j].0 == k,
            decreases plan.consumers@.len() - i,
        {
            let consumer = &plan.consumers[i];
            let mut j: usize = 0;
            while j < consumer.effects.len()
                invariant
                    i < plan.consumers@.len(),
                    *consumer == plan.consumers@[i as int],
                    j <= consumer.effects@.len(),
                    forall|k: u64| #[trigger] keys@.contains(k) <==> (exists|a: int, q: int| 0 <= a < i && 0 <= q < plan.consumers@[a].effects@.len()
                        && #[trigger] plan.consumers@[a].effects@[q].0 == k)
                        || (exists|q: int| 0 <= q < j && #[trigger] consumer.effects@[q].0 == k),
                decreases consumer.effects@.len() - j,
            {
                let ghost before = keys@;
                keys.push(consumer.effects[j].0);
                proof {
                    assert forall|k: u64| #[trigger] keys@.contains(k) <==> before.contains(k) || k == consumer.effects@[j as int].0 by {
                        if keys@.contains(k) {
                            let x = choose|x: int| 0 <= x < keys@.len() && keys@[x] == k;
                            if x < before.len() {
                                assert(before[x] == k);
                            }
                        }
                        if before.contains(k) {
                            let x = choose|x: int| 0 <= x < before.len() && before[x] == k;
                            assert(keys@[x] == k);
                        }
                        if k == consumer.effects@[j as int].0 {
                            assert(keys@[before.len() as int] == k);
                        }
                    }
                }
                j += 1;
            }
            i += 1;
        }
        let mut j: usize = 0;
        while j < plan.effects.len()
            invariant
                j <= plan.effects@.len(),
                forall|k: u64| #[trigger] keys@.contains(k) <==> (exists|a: int, q: int| 0 <= a < plan.consumers@.len() && 0 <= q < plan.consumers@[a].effects@.len()
                    && #[trigger] plan.consumers@[a].effects@[q].0 == k)
                    || (exists|q: int| 0 <= q < j && #[trigger] plan.effects@[q].0 == k),
            decreases plan.effects@.len() - j,
        {
            let ghost before = keys@;
            keys.push(plan.effects[j].0);
            proof {
                assert forall|k: u64| #[trigger] keys@.contains(k) <==> before.contains(k) || k == plan.effects@[j as int].0 by {
                    if keys@.contains(k) {
                        let x = choose|x: int| 0 <= x < keys@.len() && keys@[x] == k;
                        if x < before.len() {
                            assert(before[x] == k);
                        }
                    }
                    if before.contains(k) {
                        let x = choose|x: int| 0 <= x < before.len() && before[x] == k;
                        assert(keys@[x] == k);
                    }
                    if k == plan.effects@[j as int].0 {
                        assert(keys@[before.len() as int] == k);
                    }
                }
            }
            j += 1;
        }
        keys
    }
}

impl GraphState {
    /// The Runtime keys released by a plan.
    pub fn released_keys(plan: &RemovalPlan) -> (r: Vec<u64>)
        ensures
            forall|k: u64| #[trigger] r@.contains(k) <==> plan_released(plan, k),
    {
        let mut keys: Vec<u64> = Vec::new();
        let mut i: usize = 0;
        while i < plan.consumers.len()
            invariant
                i <= plan.consumers@.len(),
                forall|k: u64| #[trigger] keys@.contains(k) <==> exists|a: int| 0 <= a < i && #[trigger] plan.consumers@[a].instance_id.0 == k,
            decreases plan.consumers@.len() - i,
        {
            let ghost before = keys@;
            keys.push(plan.consumers[i].instance_id.0);
            proof {
                lemma_push_contains(before, plan.consumers@[i as int].instance_id.0);
            }
            i += 1;
        }
        let ghost before = keys@;
        keys.push(plan.instance_id.0);
        proof {
            lemma_push_contains(before, plan.instance_id.0);
        }
        keys
    }

    /// Addresses of the Rooms owned by a released Runtime.
    pub fn released_room_keys(&self, plan: &RemovalPlan) -> (r: Vec<u64>)
        requires
            self.wf(),
        ensures
            forall|a: u64| #[trigger] self.rooms@.contains_key(a) ==> (r@.contains(a) <==> plan_released(plan, self.rooms@[a].owner.0)),
    {
        proof {
            self.rooms.lemma_view();
        }
        let mut keys: Vec<u64> = Vec::new();
        let mut i: usize = 0;
        while i < self.rooms.len()
            invariant
                self.wf(),
                i <= self.rooms.seq().len(),
                forall|a: u64| #[trigger] keys@.contains(a) <==> exists|j: int| 0 <= j < i && #[trigger] self.rooms.seq()[j].address.0 == a
                    && plan_released(plan, self.rooms.seq()[j].owner.0),
            decreases self.rooms.seq().len() - i,
        {
            let room = self.rooms.at(i);
            let ghost before = keys@;
            if Self::plan_releases(plan, room.owner.0) {
                keys.push(room.address.0);
                proof {
                    lemma_push_contains(before, room.address.0);
                }
            }
            i += 1;
        }
        proof {
            self.rooms.lemma_view();
            assert forall|a: u64| #[trigger] self.rooms@.contains_key(a) implies (keys@.contains(a) <==> plan_released(plan, self.rooms@[a].owner.0)) by {
                let j = choose|j: int| 0 <= j < self.rooms.seq().len() && self.rooms.seq()[j].spec_key() == a;
                assert(self.rooms.seq()[j] == self.rooms@[a]);
                if keys@.contains(a) {
                    let q = choose|q: int| 0 <= q < self.rooms.seq().len() && #[trigger] self.rooms.seq()[q].address.0 == a
                        && plan_released(plan, self.rooms.seq()[q].owner.0);
                    assert(self.rooms.seq()[q] == self.rooms@[self.rooms.seq()[q].spec_key()]);
                }
            }
        }
        keys
    }

    /// Keeps the living Subscriptions whose subscriber keeps its Runtime.
    pub fn retain_subscriptions(subscriptions: &mut Vec<Subscription>, plan: &RemovalPlan)
        requires
            subscriptions_sorted(old(subscriptions)@),
        ensures
            subscriptions_sorted(final(subscriptions)@),
            final(subscriptions)@ == old(subscriptions)@.filter(|s: Subscription| !plan_released(plan, s.subscriber.0)),
    {
        let ghost s = subscriptions@;
        let ghost p = |s: Subscription| !plan_released(plan, s.subscriber.0);
        let mut kept: Vec<Subscription> = Vec::new();
        let mut i: usize = 0;
        while i < subscriptions.len()
            invariant
                s == subscriptions@,
                p == (|s: Subscription| !plan_released(plan, s.subscriber.0)),
                i <= s.len(),
                kept@ == s.take(i as int).filter(p),
            decreases s.len() - i,
        {
            let x = subscriptions[i];
            proof {
                assert(s.take(i as int + 1) =~= s.take(i as int).push(x));
                s.take(i as int).lemma_filter_push(x, p);
            }
            if !Self::plan_releases(plan, x.subscriber.0) {
                kept.push(x);
            }
            i += 1;
        }
        assert(s.take(s.len() as int) =~= s);
        proof {
            lemma_filter_sorted(s, p);
        }
        *subscriptions = kept;
    }
}

impl GraphState {
    /// Keys of the Requirements a Definition declares.
    pub fn declared_requirement_keys(definition: &crate::declaration::ComponentDefinition) -> (r: Vec<u64>)
        ensures
            forall|k: u64| #[trigger] r@.contains(k) <==> exists|j: int| 0 <= j < definition.requirements@.len()
                && #[trigger] definition.requirements@[j].id.0 == k,
    {
        let mut keys: Vec<u64> = Vec::new();
        let mut i: usize = 0;
        while i < definition.requirements.len()
            invariant
                i <= definition.requirements@.len(),
                forall|k: u64| #[trigger] keys@.contains(k) <==> exists|j: int| 0 <= j < i && #[trigger] definition.requirements@[j].id.0 == k,
            decreases definition.requirements@.len() - i,
        {
            let ghost before = keys@;
            keys.push(definition.requirements[i].id.0);
            proof {
                lemma_push_contains(before, definition.requirements@[i as int].id.0);
            }
            i += 1;
        }
        keys
    }

    /// Keys of the Capabilities a Definition offers.
    pub fn declared_capability_keys(definition: &crate::declaration::ComponentDefinition) -> (r: Vec<u64>)
        ensures
            forall|k: u64| #[trigger] r@.contains(k) <==> exists|j: int| 0 <= j < definition.capabilities@.len()
                && #[trigger] definition.capabilities@[j].id.0 == k,
    {
        let mut keys: Vec<u64> = Vec::new();
        let mut i: usize = 0;
        while i < definition.capabilities.len()
            invariant
                i <= definition.capabilities@.len(),
                forall|k: u64| #[trigger] keys@.contains(k) <==> exists|j: int| 0 <= j < i && #[trigger] definition.capabilities@[j].id.0 == k,
            decreases definition.capabilities@.len() - i,
        {
            let ghost before = keys@;
            keys.push(definition.capabilities[i].id.0);
            proof {
                lemma_push_contains(before, definition.capabilities@[i as int].id.0);
            }
            i += 1;
        }
        keys
    }

    /// Returns every consumer of a plan to Pending and drops the removed Instance.
    pub fn deactivate_consumers(instances: &mut KeyedVec<ComponentInstance>, plan: &RemovalPlan)
        requires
            old(instances).wf(),
        ensures
            final(instances).wf(),
            final(instances)@ == Map::new(
                |k: u64| old(instances)@.contains_key(k) && k != plan.instance_id.0,
                |k: u64| if plan_consumer(plan, k) {
                    ComponentInstance { resolution: ResolutionState::Pending, ..old(instances)@[k] }
                } else {
                    old(instances)@[k]
                },
            ),
    {
        let ghost m0 = instances@;
        let mut i: usize = 0;
        while i < plan.consumers.len()
            invariant
                instances.wf(),
                i <= plan.consumers@.len(),
                instances@ == Map::new(
                    |k: u64| m0.contains_key(k),
                    |k: u64| if consumer_among(plan, i as int, k) {
                        ComponentInstance { resolution: ResolutionState::Pending, ..m0[k] }
                    } else {
                        m0[k]
                    },
                ),
            decreases plan.consumers@.len() - i,
        {
            let k = plan.consumers[i].instance_id.0;
            let ghost before = instances@;
            match instances.get(k) {
                Some(instance) => {
                    let mut pending = *instance;
                    pending.deactivate();
                    instances.upsert(pending);
                },
                None => {},
            }
            proof {
                assert forall|q: u64| #[trigger] consumer_among(plan, i + 1, q) <==> consumer_among(plan, i as int, q) || q == k by {
                    if q == k {
                        assert(plan.consumers@[i as int].instance_id.0 == q);
                    }
                    if consumer_among(plan, i + 1, q) {
                        let a = choose|a: int| 0 <= a < i + 1 && #[trigger] plan.consumers@[a].instance_id.0 == q;
                        if a < i {
                            assert(consumer_among(plan, i as int, q));
                        }
                    }
                }
                assert(instances@ =~= Map::new(
                    |q: u64| m0.contains_key(q),
                    |q: u64| if consumer_among(plan, i + 1, q) {
                        ComponentInstance { resolution: ResolutionState::Pending, ..m0[q] }
                    } else {
                        m0[q]
                    },
                ));
            }
            i += 1;
        }
        let _ = instances.remove(plan.instance_id.0);
        assert(instances@ =~= Map::new(
            |k: u64| m0.contains_key(k) && k != plan.instance_id.0,
            |k: u64| if plan_consumer(plan, k) {
                ComponentInstance { resolution: ResolutionState::Pending, ..m0[k] }
            } else {
                m0[k]
            },
        ));
    }

    /// Applies a cleanup plan after every required Driver stop succeeds.
    pub fn apply_removal(&mut self, plan: &RemovalPlan)
        requires
            old(self).wf(),
        ensures
            final(self).wf(),
            removal_applied(*old(self), *final(self), plan),
    {
        let ghost g0 = *self;
        let binding_keys = Self::dropped_binding_keys(plan);
        let effect_keys = Self::dropped_effect_keys(plan);
        let runtime_keys = Self::released_keys(plan);
        let room_keys = self.released_room_keys(plan);
        self.bindings.remove_all(&binding_keys);
        self.effects.remove_all(&effect_keys);
        self.runtimes.remove_all(&runtime_keys);
        self.rooms.remove_all(&room_keys);
        Self::retain_subscriptions(&mut self.subscriptions, plan);
        Self::deactivate_consumers(&mut self.instances, plan);
        proof {
            lemma_remove_keys_restrict(g0.bindings@, binding_keys@, Set::new(|k: u64| !plan_drops_binding(plan, k)));
            lemma_remove_keys_restrict(g0.effects@, effect_keys@, Set::new(|k: u64| !plan_drops_effect(plan, k)));
            lemma_remove_keys_restrict(g0.runtimes@, runtime_keys@, Set::new(|k: u64| !plan_released(plan, k)));
            lemma_remove_keys_restrict(g0.rooms@, room_keys@, Set::new(|a: u64| !plan_released(plan, g0.rooms@[a].owner.0)));
        }
        match self.definitions.remove(plan.definition_id.0) {
            Some(definition) => {
                let requirement_keys = Self::declared_requirement_keys(&definition);
                let capability_keys = Self::declared_capability_keys(&definition);
                self.requirements.remove_all(&requirement_keys);
                self.capabilities.remove_all(&capability_keys);
                proof {
                    lemma_remove_keys_restrict(g0.requirements@, requirement_keys@,
                        Set::new(|k: u64| !exists|j: int| 0 <= j < definition.requirements@.len() && #[trigger] definition.requirements@[j].id.0 == k));
                    lemma_remove_keys_restrict(g0.capabilities@, capability_keys@,
                        Set::new(|k: u64| !exists|j: int| 0 <= j < definition.capabilities@.len() && #[trigger] definition.capabilities@[j].id.0 == k));
                }
            },
            None => {},
        }
    }

    /// Removes a consumer's Bindings, Runtime, and lifecycle-owned Effects, and returns it to Pending.
    pub fn remove_consumer_lifecycle(&mut self, consumer: &ConsumerDeactivation)
        requires
            old(self).wf(),
        ensures
            final(self).wf(),
            final(self).bindings@ == remove_keys(old(self).bindings@, consumer.bindings@.map_values(|b: Binding| b.requirement.0)),
            final(self).effects@ == remove_keys(old(self).effects@, consumer.effects@.map_values(|e: EffectId| e.0)),
            final(self).runtimes@ == old(self).runtimes@.remove(consumer.instance_id.0),
            final(self).instances@ == (if old(self).instances@.contains_key(consumer.instance_id.0) {
                old(self).instances@.insert(consumer.instance_id.0,
                    ComponentInstance { resolution: ResolutionState::Pending, ..old(self).instances@[consumer.instance_id.0] })
            } else {
                old(self).instances@
            }),
            final(self).definitions == old(self).definitions,
            final(self).requirements == old(self).requirements,
            final(self).capabilities == old(self).capabilities,
            final(self).contexts == old(self).contexts,
            final(self).facet_schemas == old(self).facet_schemas,
            final(self).facets == old(self).facets,
            final(self).rooms == old(self).rooms,
            final(self).subscriptions == old(self).subscriptions,
    {
        let ghost g0 = *self;
        let ghost b0 = self.bindings@;
        let ghost bks = consumer.bindings@.map_values(|b: Binding| b.requirement.0);
        assert(remove_keys(b0, bks.take(0)) =~= b0) by {
            assert(bks.take(0).to_set() =~= Set::<u64>::empty());
        }
        let mut i: usize = 0;
        while i < consumer.bindings.len()
            invariant
                self.wf(),
                self.definitions == g0.definitions,
                self.instances == g0.instances,
                self.requirements == g0.requirements,
                self.capabilities == g0.capabilities,
                self.runtimes == g0.runtimes,
                self.effects == g0.effects,
                self.contexts == g0.contexts,
                self.facet_schemas == g0.facet_schemas,
                self.facets == g0.facets,
                self.rooms == g0.rooms,
                self.subscriptions == g0.subscriptions,
                i <= consumer.bindings@.len(),
                bks == consumer.bindings@.map_values(|b: Binding| b.requirement.0),
                self.bindings@ == remove_keys(b0, bks.take(i as int)),
            decreases consumer.bindings@.len() - i,
        {
            let _ = self.bindings.remove(consumer.bindings[i].requirement.0);
            proof {
                lemma_remove_keys_take(b0, bks, i as int);
            }
            i += 1;
        }
        assert(bks.take(bks.len() as int) =~= bks);
        let ghost e0 = self.effects@;
        let ghost eks = consumer.effects@.map_values(|e: EffectId| e.0);
        assert(remove_keys(e0, eks.take(0)) =~= e0) by {
            assert(eks.take(0).to_set() =~= Set::<u64>::empty());
        }
        let mut j: usize = 0;
        while j < consumer.effects.len()
            invariant
                self.wf(),
                self.definitions == g0.definitions,
                self.instances == g0.instances,
                self.requirements == g0.requirements,
                self.capabilities == g0.capabilities,
                self.runtimes == g0.runtimes,
                self.contexts == g0.contexts,
                self.facet_schemas == g0.facet_schemas,
                self.facets == g0.facets,
                self.rooms == g0.rooms,
                self.subscriptions == g0.subscriptions,
                self.bindings@ == remove_keys(b0, bks),
                j <= consumer.effects@.len(),
                eks == consumer.effects@.map_values(|e: EffectId| e.0),
                self.effects@ == remove_keys(e0, eks.take(j as int)),
            decreases consumer.effects@.len() - j,
        {
            let _ = self.effects.remove(consumer.effects[j].0);
            proof {
                lemma_remove_keys_take(e0, eks, j as int);
            }
            j += 1;
        }
        assert(eks.take(eks.len() as int) =~= eks);
        let _ = self.runtimes.remove(consumer.instance_id.0);
        match self.instances.get(consumer.instance_id.0) {
            Some(instance) => {
                let mut pending = *instance;
                pending.deactivate();
                self.instances.upsert(pending);
            },
            None => {},
        }
    }
}

/// Filtering keeps the Subscription order.
pub proof fn lemma_filter_sorted(s: Seq<Subscription>, p: spec_fn(Subscription) -> bool)
    requires
        subscriptions_sorted(s),
    ensures
        subscriptions_sorted(s.filter(p)),
        forall|i: int| 0 <= i < s.filter(p).len() ==> s.contains(#[trigger] s.filter(p)[i]),
    decreases s.len(),
{
    reveal(Seq::filter);
    if s.len() > 0 {
        let t = s.drop_last();
        assert(subscriptions_sorted(t));
        lemma_filter_sorted(t, p);
        assert forall|i: int| 0 <= i < t.filter(p).len() implies s.contains(#[trigger] t.filter(p)[i]) by {
            let j = choose|j: int| 0 <= j < t.len() && t[j] == t.filter(p)[i];
            assert(s[j] == t[j]);
        }
        if p(s.last()) {
            let f = t.filter(p).push(s.last());
            assert forall|a: int, b: int| 0 <= a < b < f.len() implies !subscription_before(#[trigger] f[b], #[trigger] f[a]) by {
                if b == f.len() - 1 {
                    let j = choose|j: int| 0 <= j < t.len() && t[j] == f[a];
                    assert(s[j] == f[a]);
                    assert(!subscription_before(s[s.len() - 1], s[j]));
                }
            }
            assert forall|i: int| 0 <= i < f.len() implies s.contains(#[trigger] f[i]) by {
                if i == f.len() - 1 {
                    assert(s[s.len() - 1] == f[i]);
                }
            }
        }
    }
}
} // verus!
