//! Affected activation planning and the ordered Binding policy seam.
use vstd::prelude::*;
use crate::error::KernelError;
use crate::graph::GraphState;
use crate::identity::{AddonId, CapabilityContractId, CapabilityId, ComponentInstanceId, HookOrder, RequirementId};
use crate::keyed::{Keyed, KeyedVec, insert_all, keys_sorted, lemma_insert_all_take, seq_has_key};
use crate::declaration::MailboxPolicy;
use crate::mailbox::ComponentRuntime;
use crate::identity::ComponentRuntimeId;
use crate::routing::{insert_all_sorted, rooms_materialized, subscriptions_for};
use crate::execution::{ExecutionFront, ExecutionPlan, ExecutionWork, WorkView};
use crate::search::{first_where, lemma_first_where_at, lemma_first_where_none};
use crate::system::{Binding, CapabilityPlacement, ComponentInstance, Requirement, ResolutionState};

verus! {

/// One compatible Capability and its publishing provider.
#[derive(Debug, Clone, Copy, PartialEq, Eq, Structural)]
pub struct BindingCandidate {
    /// Compatible Capability considered by the Resolver.
    pub capability: CapabilityId,
    /// Component Instance publishing the Capability.
    pub provider: ComponentInstanceId,
}

impl BindingCandidate {
    /// Creates one compatible provider candidate.
    pub fn new(capability: CapabilityId, provider: ComponentInstanceId) -> (r: Self)
        ensures
            r.capability == capability,
            r.provider == provider,
    {
        BindingCandidate { capability, provider }
    }

    /// Returns the compatible Capability identity.
    pub fn capability(&self) -> (r: CapabilityId)
        ensures
            r == self.capability,
    {
        self.capability
    }

    /// Returns the publishing Component Instance.
    pub fn provider(&self) -> (r: ComponentInstanceId)
        ensures
            r == self.provider,
    {
        self.provider
    }
}

/// Mathematical content of a Binding proposal.
pub struct ProposalView {
    pub requirement: RequirementId,
    pub contract: CapabilityContractId,
    pub candidates: Seq<BindingCandidate>,
    pub selected: CapabilityId,
}

/// Inspectable proposed Binding passed through ordered active Addon hooks.
#[derive(Debug, Clone, PartialEq, Eq)]
pub struct BindingProposal {
    /// Requirement being resolved.
    pub requirement: RequirementId,
    /// Capability Contract required by the consumer.
    pub contract: CapabilityContractId,
    /// Every compatible provider eligible for this mutation.
    pub candidates: Vec<BindingCandidate>,
    /// Capability selected by prior hooks or the allow-all default.
    pub selected: CapabilityId,
}

impl View for BindingProposal {
    type V = ProposalView;

    open spec fn view(&self) -> ProposalView {
        ProposalView {
            requirement: self.requirement,
            contract: self.contract,
            candidates: self.candidates@,
            selected: self.selected,
        }
    }
}

impl BindingProposal {
    /// Creates a proposal with the deterministic allow-all selection.
    pub fn new(requirement: RequirementId, contract: CapabilityContractId, candidates: Vec<BindingCandidate>, selected: CapabilityId) -> (r: Self)
        ensures
            r@ == (ProposalView { requirement, contract, candidates: candidates@, selected }),
    {
        BindingProposal { requirement, contract, candidates, selected }
    }

    /// Replaces the selected compatible Capability for the next hook.
    pub fn select(&mut self, capability: CapabilityId)
        ensures
            final(self)@ == (ProposalView { selected: capability, ..old(self)@ }),
    {
        self.selected = capability;
    }

    /// Returns the Requirement being resolved.
    pub fn requirement(&self) -> (r: RequirementId)
        ensures
            r == self.requirement,
    {
        self.requirement
    }

    /// Returns the Capability Contract required by the consumer.
    pub fn contract(&self) -> (r: CapabilityContractId)
        ensures
            r == self.contract,
    {
        self.contract
    }

    /// Returns every compatible provider candidate.
    pub fn candidates(&self) -> (r: &[BindingCandidate])
        ensures
            r@ == self.candidates@,
    {
        self.candidates.as_slice()
    }

    /// Returns the Capability selected by prior hooks or allow-all.
    pub fn selected(&self) -> (r: CapabilityId)
        ensures
            r == self.selected,
    {
        self.selected
    }
}

/// Influence returned by one active Addon at the Binding seam.
#[derive(Debug, Clone, PartialEq, Eq)]
pub enum BindingDecision {
    /// Accepts the proposal without changing provider selection.
    Allow,
    /// Rejects Binding creation with an inspectable Addon-owned reason.
    Reject(String),
    /// Selects another compatible Capability from the proposal.
    SelectCapability(CapabilityId),
}

/// Active Addon hook participating in deterministic Binding policy.
///
/// Hooks belong to Addons; the Kernel states what holds of every decision they return.
pub trait BindingHook {
    /// How this hook answers `addon`. A hook may define it; the Kernel relies on
    /// nothing more than the relation holding, and the default states nothing.
    open spec fn owned_by(&self, addon: AddonId) -> bool {
        true
    }

    /// How this hook answers `evaluate` on a proposal. A hook may define it; the
    /// Kernel relies on nothing more than the relation holding, and the default
    /// states nothing.
    open spec fn decides(&self, proposal: ProposalView, decision: BindingDecision) -> bool {
        true
    }

    /// Returns the Addon that owns this policy decision.
    fn addon(&self) -> (r: AddonId)
        ensures
            self.owned_by(r),
    ;

    /// Returns this hook's declared deterministic order.
    fn order(&self) -> HookOrder;

    /// Observes and optionally rejects or influences the proposed Binding.
    fn evaluate(&self, proposal: &BindingProposal) -> (r: BindingDecision)
        ensures
            self.decides(proposal@, r),
    ;
}

/// The proposal after one hook's decision, and that decision's outcome.
pub open spec fn decision_step(p: ProposalView, selected: BindingCandidate, addon: AddonId, d: BindingDecision) -> (ProposalView, Result<BindingCandidate, KernelError>) {
    match d {
        BindingDecision::Allow => (p, Ok(selected)),
        BindingDecision::Reject(reason) => (p, Err(KernelError::BindingRejected { addon, requirement: p.requirement, reason })),
        BindingDecision::SelectCapability(c) => match candidate_offering(p.candidates, c) {
            Some(i) => (ProposalView { selected: c, ..p }, Ok(p.candidates[i])),
            None => (p, Err(KernelError::InvalidBindingSelection { addon, requirement: p.requirement, capability: c })),
        },
    }
}

/// The proposal and outcome after the hook answers `outs` (owner, decision) were applied in order from `p` and `selected`, stopping at the first error.
pub open spec fn hooks_run(p: ProposalView, selected: BindingCandidate, outs: Seq<(AddonId, BindingDecision)>) -> (ProposalView, Result<BindingCandidate, KernelError>)
    decreases outs.len(),
{
    if outs.len() == 0 {
        (p, Ok(selected))
    } else {
        let prev = hooks_run(p, selected, outs.drop_last());
        match prev.1 {
            Err(e) => (prev.0, Err(e)),
            Ok(c) => decision_step(prev.0, c, outs.last().0, outs.last().1),
        }
    }
}

/// The first `outs.len()` hooks were consulted in slice order, each seeing the
/// proposal left by the ones before it and answering `outs[i]`; the rest were
/// not consulted because an answer failed, and no earlier answer did.
pub open spec fn hooks_answered(hooks: Seq<Box<dyn BindingHook>>, p: ProposalView, selected: BindingCandidate, outs: Seq<(AddonId, BindingDecision)>) -> bool {
    &&& outs.len() <= hooks.len()
    &&& forall|i: int| 0 <= i < outs.len() ==> (#[trigger] hooks[i]).owned_by(outs[i].0)
        && hooks[i].decides(hooks_run(p, selected, outs.take(i)).0, outs[i].1)
        && hooks_run(p, selected, outs.take(i)).1 is Ok
    &&& outs.len() < hooks.len() ==> hooks_run(p, selected, outs).1 is Err
}

/// The first candidate of a proposal offering `capability`.
pub open spec fn candidate_offering(candidates: Seq<BindingCandidate>, capability: CapabilityId) -> Option<int> {
    first_where(candidates.len() as int, |i: int| candidates[i].capability == capability)
}

/// Position of the first candidate offering `capability`.
pub fn find_candidate(candidates: &[BindingCandidate], capability: CapabilityId) -> (r: Option<usize>)
    ensures
        r matches Some(i) ==> i < candidates@.len() && candidates@[i as int].capability == capability
            && candidate_offering(candidates@, capability) == Some(i as int),
        r is None ==> candidate_offering(candidates@, capability) == None::<int>
            && forall|q: int| 0 <= q < candidates@.len() ==> candidates@[q].capability != capability,
{
    let ghost cands = candidates@;
    let ghost p = |i: int| cands[i].capability == capability;
    let mut i: usize = 0;
    while i < candidates.len()
        invariant
            cands == candidates@,
            p == (|i: int| cands[i].capability == capability),
            i <= cands.len(),
            forall|j: int| 0 <= j < i ==> !#[trigger] p(j),
        decreases cands.len() - i,
    {
        if candidates[i].capability == capability {
            proof {
                assert(p(i as int));
                lemma_first_where_at(cands.len() as int, p, i as int);
            }
            return Some(i);
        }
        assert(!p(i as int));
        i += 1;
    }
    proof {
        lemma_first_where_none(cands.len() as int, p);
        assert forall|q: int| 0 <= q < cands.len() implies cands[q].capability != capability by {
            assert(!p(q));
        }
    }
    None
}

/// Applies one hook decision to the proposal and the current selection.
pub fn apply_binding_decision(
    proposal: &mut BindingProposal,
    selected: BindingCandidate,
    addon: AddonId,
    decision: BindingDecision,
) -> (r: Result<BindingCandidate, KernelError>)
    ensures
        decision is Allow ==> r == Ok::<BindingCandidate, KernelError>(selected) && final(proposal)@ == old(proposal)@,
        decision matches BindingDecision::Reject(reason) ==> r == Err::<BindingCandidate, KernelError>(KernelError::BindingRejected {
            addon,
            requirement: old(proposal).requirement,
            reason,
        }) && final(proposal)@ == old(proposal)@,
        decision matches BindingDecision::SelectCapability(c) ==> match candidate_offering(old(proposal).candidates@, c) {
            Some(i) => r == Ok::<BindingCandidate, KernelError>(old(proposal).candidates@[i])
                && final(proposal)@ == (ProposalView { selected: c, ..old(proposal)@ }),
            None => r == Err::<BindingCandidate, KernelError>(KernelError::InvalidBindingSelection {
                addon,
                requirement: old(proposal).requirement,
                capability: c,
            }) && final(proposal)@ == old(proposal)@,
        },
        final(proposal)@.requirement == old(proposal)@.requirement,
        final(proposal)@.candidates == old(proposal)@.candidates,
        hook_outcome_ok(old(proposal)@, selected, r),
        (final(proposal)@, r) == decision_step(old(proposal)@, selected, addon, decision),
{
    match decision {
        BindingDecision::Allow => Ok(selected),
        BindingDecision::Reject(reason) => Err(KernelError::BindingRejected { addon, requirement: proposal.requirement, reason }),
        BindingDecision::SelectCapability(capability) => {
            match find_candidate(proposal.candidates.as_slice(), capability) {
                Some(i) => {
                    let found = proposal.candidates[i];
                    proposal.select(capability);
                    Ok(found)
                },
                None => Err(KernelError::InvalidBindingSelection { addon, requirement: proposal.requirement, capability }),
            }
        },
    }
}

/// A hook outcome keeps the requirement and picks a proposed candidate or the incoming one.
pub open spec fn hook_outcome_ok(p: ProposalView, selected: BindingCandidate, r: Result<BindingCandidate, KernelError>) -> bool {
    match r {
        Ok(c) => c == selected || p.candidates.contains(c),
        Err(e) => match e {
            KernelError::BindingRejected { requirement, .. } => requirement == p.requirement,
            KernelError::InvalidBindingSelection { requirement, capability, .. } => requirement == p.requirement
                && !exists|i: int| 0 <= i < p.candidates.len() && p.candidates[i].capability == capability,
            _ => false,
        },
    }
}

/// A rejection judged against one proposal is judged alike against a proposal with the same candidates.
proof fn lemma_outcome_err(p: ProposalView, q: ProposalView, a: BindingCandidate, b: BindingCandidate, e: KernelError)
    requires
        p.requirement == q.requirement,
        p.candidates == q.candidates,
        hook_outcome_ok(p, a, Err::<BindingCandidate, KernelError>(e)),
    ensures
        hook_outcome_ok(q, b, Err::<BindingCandidate, KernelError>(e)),
{
}

/// Applies active hooks in pre-sorted order and returns the selected candidate.
///
/// Without hooks the incoming selection stands; otherwise every outcome keeps
/// the Requirement and selects only a proposed candidate.
pub fn evaluate_binding_hooks(
    hooks: &[Box<dyn BindingHook>],
    proposal: BindingProposal,
    selected: BindingCandidate,
) -> (r: Result<BindingCandidate, KernelError>)
    ensures
        hooks@.len() == 0 ==> r == Ok::<BindingCandidate, KernelError>(selected),
        hook_outcome_ok(proposal@, selected, r),
        exists|outs: Seq<(AddonId, BindingDecision)>| #[trigger] hooks_answered(hooks@, proposal@, selected, outs)
            && r == hooks_run(proposal@, selected, outs).1,
{
    let ghost p0 = proposal@;
    let mut current = proposal;
    assert(p0 == current@);
    let mut selected_now = selected;
    let mut i: usize = 0;
    let ghost mut outs: Seq<(AddonId, BindingDecision)> = Seq::empty();
    while i < hooks.len()
        invariant
            i <= hooks@.len(),
            p0 == proposal@,
            current@.requirement == p0.requirement,
            current@.candidates == p0.candidates,
            selected_now == selected || p0.candidates.contains(selected_now),
            i == 0 ==> selected_now == selected,
            outs.len() == i,
            forall|j: int| 0 <= j < i ==> (#[trigger] hooks@[j]).owned_by(outs[j].0)
                && hooks@[j].decides(hooks_run(p0, selected, outs.take(j)).0, outs[j].1)
                && hooks_run(p0, selected, outs.take(j)).1 is Ok,
            hooks_run(p0, selected, outs) == (current@, Ok::<BindingCandidate, KernelError>(selected_now)),
        decreases hooks@.len() - i,
    {
        let hook = &hooks[i];
        let decision = hook.evaluate(&current);
        let addon = hook.addon();
        let ghost before = current@;
        let ghost old_outs = outs;
        proof {
            outs = outs.push((addon, decision));
            assert(outs.drop_last() =~= old_outs);
            assert(outs.take(i as int) =~= old_outs);
            assert forall|j: int| 0 <= j < i implies outs.take(j) =~= old_outs.take(j) by {}
        }
        let step = apply_binding_decision(&mut current, selected_now, addon, decision);
        match step {
            Ok(c) => {
                selected_now = c;
            },
            Err(e) => {
                assert(hook_outcome_ok(before, selected_now, Err::<BindingCandidate, KernelError>(e)));
                proof {
                    lemma_outcome_err(before, p0, selected_now, selected, e);
                    assert(hook_outcome_ok(p0, selected, Err::<BindingCandidate, KernelError>(e)));
                    assert(hooks_answered(hooks@, p0, selected, outs));
                }
                return Err(e);
            },
        }
        i += 1;
    }
    proof {
        assert(hooks_answered(hooks@, p0, selected, outs));
    }
    Ok(selected_now)
}


/// The candidate formed by one Capability placement.
pub open spec fn candidate_of(p: CapabilityPlacement) -> BindingCandidate {
    BindingCandidate { capability: p.capability.id, provider: p.provider_id }
}

/// The provider of a placement lives and is Active or among the affected candidates.
pub open spec fn provider_eligible(g: GraphState, cs: Set<u64>, p: CapabilityPlacement) -> bool {
    g.instances@.contains_key(p.provider_id.0)
        && (g.instances@[p.provider_id.0].resolution == ResolutionState::Active || cs.contains(p.provider_id.0))
}

/// Placements that may satisfy `contract` for the affected candidates `cs`.
pub open spec fn eligible_for(g: GraphState, contract: CapabilityContractId, cs: Set<u64>) -> spec_fn(CapabilityPlacement) -> bool {
    |p: CapabilityPlacement| p.capability.contract == contract && provider_eligible(g, cs, p)
}

/// Every compatible provider candidate, in Capability identity order.
pub open spec fn compatible_candidates(g: GraphState, contract: CapabilityContractId, cs: Set<u64>) -> Seq<BindingCandidate> {
    g.capabilities.seq().filter(eligible_for(g, contract, cs)).map_values(|p: CapabilityPlacement| candidate_of(p))
}

/// The provider of a candidate is an Active Instance.
pub open spec fn candidate_active(g: GraphState, c: BindingCandidate) -> bool {
    g.instances@.contains_key(c.provider.0) && g.instances@[c.provider.0].resolution == ResolutionState::Active
}

/// The allow-all selection: the first candidate with an Active provider, else the first candidate.
pub open spec fn default_candidate(g: GraphState, cands: Seq<BindingCandidate>) -> Option<BindingCandidate> {
    let a = first_where(cands.len() as int, |i: int| candidate_active(g, cands[i]));
    if a is Some {
        Some(cands[a->0])
    } else if cands.len() > 0 {
        Some(cands[0])
    } else {
        None
    }
}

/// The Binding that allow-all policy creates for a Requirement, if any.
pub open spec fn default_binding(g: GraphState, req: Requirement, cs: Set<u64>) -> Option<Binding> {
    match default_candidate(g, compatible_candidates(g, req.contract, cs)) {
        Some(c) => Some(Binding { requirement: req.id, capability: c.capability, provider: c.provider }),
        None => None,
    }
}

/// The allow-all Binding names a registered Capability of the Requirement's
/// contract, under the Capability's own provider.
pub proof fn lemma_default_binding_fits(g: GraphState, req: Requirement, cs: Set<u64>)
    requires
        g.wf(),
        default_binding(g, req, cs) is Some,
    ensures
        g.capabilities@.contains_key(default_binding(g, req, cs)->0.capability.0),
        g.capabilities@[default_binding(g, req, cs)->0.capability.0].provider_id == default_binding(g, req, cs)->0.provider,
        g.capabilities@[default_binding(g, req, cs)->0.capability.0].capability.contract == req.contract,
        default_binding(g, req, cs)->0.requirement == req.id,
{
    let cands = compatible_candidates(g, req.contract, cs);
    let elig = eligible_for(g, req.contract, cs);
    let f = g.capabilities.seq().filter(elig);
    assert(cands == f.map_values(|p: CapabilityPlacement| candidate_of(p)));
    crate::search::lemma_first_where_found(cands.len() as int, |i: int| candidate_active(g, cands[i]));
    let a = first_where(cands.len() as int, |i: int| candidate_active(g, cands[i]));
    let x: int = if a is Some { a->0 } else { 0 };
    assert(0 <= x < cands.len());
    assert(default_candidate(g, cands) == Some(cands[x]));
    g.capabilities.seq().lemma_filter_pred(elig, x);
    g.capabilities.seq().lemma_filter_contains_rev(elig, f[x]);
    g.capabilities.lemma_view();
    let q = choose|q: int| 0 <= q < g.capabilities.seq().len() && g.capabilities.seq()[q] == f[x];
    assert(g.capabilities@[g.capabilities.seq()[q].spec_key()] == g.capabilities.seq()[q]);
    assert(cands[x] == candidate_of(f[x]));
}

/// Instance key `k` is a living Active Instance.
pub open spec fn active_instance(g: GraphState, k: u64) -> bool {
    g.instances@.contains_key(k) && g.instances@[k].resolution == ResolutionState::Active
}

/// Candidate `x` is the first whose provider is a living Active Instance.
pub open spec fn first_active_at(g: GraphState, cands: Seq<BindingCandidate>, x: int) -> bool {
    &&& 0 <= x < cands.len()
    &&& active_instance(g, cands[x].provider.0)
    &&& forall|y: int| 0 <= y < x ==> !active_instance(g, #[trigger] cands[y].provider.0)
}

/// With a candidate `i` whose provider is Active, the allow-all selection is
/// the first such candidate, which comes no later than `i`.
#[verifier::spinoff_prover]
#[verifier::rlimit(40)]
pub proof fn lemma_default_selection_at(g: GraphState, cands: Seq<BindingCandidate>, i: int) -> (x: int)
    requires
        0 <= i < cands.len(),
        active_instance(g, cands[i].provider.0),
    ensures
        x <= i,
        first_active_at(g, cands, x),
        default_candidate(g, cands) == Some(cands[x]),
{
    let p = |i: int| candidate_active(g, cands[i]);
    assert(p(i));
    crate::search::lemma_first_where_some(cands.len() as int, p, i);
    let x = first_where(cands.len() as int, p)->0;
    assert(p(x));
    assert forall|y: int| 0 <= y < x implies !active_instance(g, #[trigger] cands[y].provider.0) by {
        assert(!p(y));
    }
    x
}

/// The allow-all selection among candidates is the first candidate whose
/// provider is a living Active Instance, when there is one, and otherwise the
/// first candidate.
#[verifier::spinoff_prover]
#[verifier::rlimit(40)]
pub proof fn law_default_selection_prefers_active(g: GraphState, cands: Seq<BindingCandidate>)
    ensures
        forall|i: int| 0 <= i < cands.len() && #[trigger] active_instance(g, cands[i].provider.0)
            ==> exists|x: int| x <= i && #[trigger] first_active_at(g, cands, x) && default_candidate(g, cands) == Some(cands[x]),
        (forall|i: int| 0 <= i < cands.len() ==> !#[trigger] active_instance(g, cands[i].provider.0))
            ==> default_candidate(g, cands) == (if cands.len() > 0 { Some(cands[0]) } else { None }),
{
    assert forall|i: int| 0 <= i < cands.len() && #[trigger] active_instance(g, cands[i].provider.0)
        implies exists|x: int| x <= i && #[trigger] first_active_at(g, cands, x) && default_candidate(g, cands) == Some(cands[x]) by {
        let x = lemma_default_selection_at(g, cands, i);
    }
    if forall|i: int| 0 <= i < cands.len() ==> !#[trigger] active_instance(g, cands[i].provider.0) {
        let p = |i: int| candidate_active(g, cands[i]);
        assert forall|j: int| 0 <= j < cands.len() implies !#[trigger] p(j) by {
            assert(!active_instance(g, cands[j].provider.0));
        }
        crate::search::lemma_first_where_none(cands.len() as int, p);
    }
}

/// Without hooks, when a registered Capability of the Requirement's contract is
/// published by an Active Instance, the Requirement is bound to an Active
/// provider: the compatible Capability with the least identity among those
/// whose provider is Active.
#[verifier::spinoff_prover]
#[verifier::rlimit(40)]
pub proof fn law_default_binding_prefers_active_provider(g: GraphState, req: Requirement, cs: Set<u64>, c: u64)
    requires
        g.wf(),
        g.capabilities@.contains_key(c),
        g.capabilities@[c].capability.contract == req.contract,
        active_instance(g, g.capabilities@[c].provider_id.0),
    ensures
        default_binding(g, req, cs) is Some,
        default_binding(g, req, cs)->0.requirement == req.id,
        active_instance(g, default_binding(g, req, cs)->0.provider.0),
        g.capabilities@.contains_key(default_binding(g, req, cs)->0.capability.0),
        g.capabilities@[default_binding(g, req, cs)->0.capability.0].capability.contract == req.contract,
        g.capabilities@[default_binding(g, req, cs)->0.capability.0].provider_id == default_binding(g, req, cs)->0.provider,
        default_binding(g, req, cs)->0.capability.0 <= c,
{
    let cands = compatible_candidates(g, req.contract, cs);
    let elig = eligible_for(g, req.contract, cs);
    let s = g.capabilities.seq();
    let f = s.filter(elig);
    assert(cands == f.map_values(|p: CapabilityPlacement| candidate_of(p)));
    let pos = crate::distribution::lemma_filter_positions(s, elig);
    g.capabilities.lemma_view();
    let t = choose|t: int| 0 <= t < s.len() && s[t].spec_key() == c;
    assert(g.capabilities@[c] == s[t]);
    assert(elig(s[t]));
    let i = choose|i: int| 0 <= i < pos.len() && pos[i] == t;
    assert(f[i] == s[t]);
    assert(cands[i] == candidate_of(f[i]));
    let x = lemma_default_selection_at(g, cands, i);
    lemma_default_binding_fits(g, req, cs);
    assert(cands[x] == candidate_of(f[x]));
    assert(f[x] == s[pos[x]]);
    if x < i {
        assert(pos[x] < pos[i]);
        assert(s[pos[x]].spec_key() < s[pos[i]].spec_key());
    }
}

/// Capability key `c` is registered with contract `contract`, and its provider
/// lives and is Active or among the candidates `cs`.
pub open spec fn offers_eligibly(g: GraphState, contract: CapabilityContractId, cs: Set<u64>, c: u64) -> bool {
    &&& g.capabilities@.contains_key(c)
    &&& g.capabilities@[c].capability.contract == contract
    &&& g.instances@.contains_key(g.capabilities@[c].provider_id.0)
    &&& (active_instance(g, g.capabilities@[c].provider_id.0) || cs.contains(g.capabilities@[c].provider_id.0))
}

/// Without hooks a Requirement is bound exactly when some registered Capability
/// of its contract is offered by a living provider that is Active or a
/// candidate; the Binding names such a Capability under its own provider, and
/// when no such provider is Active it is the one with the least identity.
#[verifier::spinoff_prover]
#[verifier::rlimit(40)]
pub proof fn law_default_binding_offered(g: GraphState, req: Requirement, cs: Set<u64>)
    requires
        g.wf(),
    ensures
        default_binding(g, req, cs) is Some <==> exists|c: u64| #[trigger] offers_eligibly(g, req.contract, cs, c),
        default_binding(g, req, cs) is Some ==> offers_eligibly(g, req.contract, cs, default_binding(g, req, cs)->0.capability.0)
            && g.capabilities@[default_binding(g, req, cs)->0.capability.0].provider_id == default_binding(g, req, cs)->0.provider
            && default_binding(g, req, cs)->0.requirement == req.id,
        (forall|c: u64| #[trigger] offers_eligibly(g, req.contract, cs, c) ==> !active_instance(g, g.capabilities@[c].provider_id.0))
            ==> forall|c: u64| #[trigger] offers_eligibly(g, req.contract, cs, c) ==> default_binding(g, req, cs)->0.capability.0 <= c,
{
    let cands = compatible_candidates(g, req.contract, cs);
    let elig = eligible_for(g, req.contract, cs);
    let s = g.capabilities.seq();
    let f = s.filter(elig);
    assert(cands == f.map_values(|p: CapabilityPlacement| candidate_of(p)));
    let pos = crate::distribution::lemma_filter_positions(s, elig);
    g.capabilities.lemma_view();
    law_default_selection_prefers_active(g, cands);
    assert forall|i: int| 0 <= i < f.len() implies offers_eligibly(g, req.contract, cs, #[trigger] f[i].capability.id.0)
        && g.capabilities@[f[i].capability.id.0] == f[i] by {
        let t = pos[i];
        assert(elig(s[t]));
        assert(g.capabilities@[s[t].spec_key()] == s[t]);
    }
    if exists|c: u64| #[trigger] offers_eligibly(g, req.contract, cs, c) {
        let c = choose|c: u64| #[trigger] offers_eligibly(g, req.contract, cs, c);
        let t = choose|t: int| 0 <= t < s.len() && s[t].spec_key() == c;
        assert(g.capabilities@[c] == s[t]);
        assert(elig(s[t]));
        let i = choose|i: int| 0 <= i < pos.len() && pos[i] == t;
        assert(cands.len() > 0);
    }
    if default_binding(g, req, cs) is Some {
        lemma_default_binding_fits(g, req, cs);
        assert(cands.len() > 0);
        let c0 = f[0].capability.id.0;
        assert(offers_eligibly(g, req.contract, cs, c0));
        if exists|i: int| 0 <= i < cands.len() && #[trigger] active_instance(g, cands[i].provider.0) {
            let i = choose|i: int| 0 <= i < cands.len() && #[trigger] active_instance(g, cands[i].provider.0);
            let y = lemma_default_selection_at(g, cands, i);
            assert(cands[y] == candidate_of(f[y]));
            assert(offers_eligibly(g, req.contract, cs, f[y].capability.id.0));
        } else {
            assert(default_candidate(g, cands) == Some(cands[0]));
            assert(cands[0] == candidate_of(f[0]));
            assert forall|c: u64| #[trigger] offers_eligibly(g, req.contract, cs, c) implies default_binding(g, req, cs)->0.capability.0 <= c by {
                let t = choose|t: int| 0 <= t < s.len() && s[t].spec_key() == c;
                assert(g.capabilities@[c] == s[t]);
                assert(elig(s[t]));
                let i = choose|i: int| 0 <= i < pos.len() && pos[i] == t;
                if 0 < i {
                    assert(pos[0] < pos[i]);
                    assert(s[pos[0]].spec_key() < s[pos[i]].spec_key());
                }
                assert(f[0] == s[pos[0]]);
            }
        }
    }
    if (forall|c: u64| #[trigger] offers_eligibly(g, req.contract, cs, c) ==> !active_instance(g, g.capabilities@[c].provider_id.0))
        && default_binding(g, req, cs) is Some {
        assert forall|i: int| 0 <= i < cands.len() implies !#[trigger] active_instance(g, cands[i].provider.0) by {
            assert(cands[i] == candidate_of(f[i]));
            assert(offers_eligibly(g, req.contract, cs, f[i].capability.id.0));
        }
    }
}

/// A Binding selects a compatible candidate for its Requirement.
pub open spec fn binding_compatible(g: GraphState, req: Requirement, cs: Set<u64>, b: Binding) -> bool {
    b.requirement == req.id
        && compatible_candidates(g, req.contract, cs).contains(BindingCandidate { capability: b.capability, provider: b.provider })
}

/// The proposal that the hooks see for `req`: its compatible candidates and the allow-all selection.
pub open spec fn default_proposal(g: GraphState, req: Requirement, cs: Set<u64>) -> ProposalView {
    let cands = compatible_candidates(g, req.contract, cs);
    ProposalView { requirement: req.id, contract: req.contract, candidates: cands, selected: default_candidate(g, cands)->0.capability }
}

/// The Binding outcome of a hook evaluation for Requirement `req`.
pub open spec fn binding_outcome(req: RequirementId, r: Result<BindingCandidate, KernelError>) -> Result<Option<Binding>, KernelError> {
    match r {
        Ok(c) => Ok(Some(Binding { requirement: req, capability: c.capability, provider: c.provider })),
        Err(e) => Err(e),
    }
}

/// What resolving one Requirement through the hooks may give: nothing without a
/// candidate; otherwise the hook evaluation of the allow-all proposal, as a Binding.
pub open spec fn requirement_resolved(g: GraphState, req: Requirement, cs: Set<u64>, hooks: Seq<Box<dyn BindingHook>>, r: Result<Option<Binding>, KernelError>) -> bool {
    if default_binding(g, req, cs) is None {
        r == Ok::<Option<Binding>, KernelError>(None)
    } else {
        exists|outs: Seq<(AddonId, BindingDecision)>|
            #[trigger] hooks_answered(hooks, default_proposal(g, req, cs), default_candidate(g, compatible_candidates(g, req.contract, cs))->0, outs)
            && r == binding_outcome(req.id, hooks_run(default_proposal(g, req, cs), default_candidate(g, compatible_candidates(g, req.contract, cs))->0, outs).1)
    }
}

/// Every resolution of `rs` gave a Binding.
pub open spec fn all_bound(rs: Seq<Result<Option<Binding>, KernelError>>) -> bool {
    forall|j: int| 0 <= j < rs.len() ==> (#[trigger] rs[j]) is Ok && rs[j]->Ok_0 is Some
}

/// The Requirements `reqs` were resolved in declaration order with results `rs`,
/// stopping at the first one that gave no Binding.
pub open spec fn resolutions_made(g: GraphState, reqs: Seq<Requirement>, cs: Set<u64>, hooks: Seq<Box<dyn BindingHook>>, rs: Seq<Result<Option<Binding>, KernelError>>) -> bool {
    &&& rs.len() <= reqs.len()
    &&& forall|j: int| 0 <= j < rs.len() ==> requirement_resolved(g, reqs[j], cs, hooks, #[trigger] rs[j])
    &&& forall|j: int| 0 <= j < rs.len() - 1 ==> (#[trigger] rs[j]) is Ok && rs[j]->Ok_0 is Some
    &&& rs.len() < reqs.len() ==> !all_bound(rs)
}

/// The Bindings of resolutions that all gave one.
pub open spec fn bound_bindings(rs: Seq<Result<Option<Binding>, KernelError>>) -> Seq<Binding> {
    rs.map_values(|x: Result<Option<Binding>, KernelError>| x->Ok_0->Some_0)
}

/// A hook-raised error names the Requirement being resolved.
pub open spec fn binding_error_ok(req: Requirement, e: KernelError) -> bool {
    match e {
        KernelError::BindingRejected { requirement, .. } => requirement == req.id,
        KernelError::InvalidBindingSelection { requirement, .. } => requirement == req.id,
        _ => false,
    }
}

/// The Instance lives and its Definition is present.
pub open spec fn plannable(g: GraphState, k: u64) -> bool {
    g.instances@.contains_key(k) && g.definitions@.contains_key(g.instances@[k].definition_id.0)
}

/// The Requirements of a living Instance, in declaration order.
pub open spec fn requirements_of(g: GraphState, k: u64) -> Seq<Requirement> {
    g.definitions@[g.instances@[k].definition_id.0].requirements@
}

/// Every Requirement of a list has an allow-all Binding.
pub open spec fn all_bindable(g: GraphState, reqs: Seq<Requirement>, cs: Set<u64>) -> bool {
    forall|i: int| 0 <= i < reqs.len() ==> #[trigger] default_binding(g, reqs[i], cs) is Some
}

/// The allow-all Bindings of a list of Requirements.
pub open spec fn default_bindings(g: GraphState, reqs: Seq<Requirement>, cs: Set<u64>) -> Seq<Binding> {
    reqs.map_values(|r: Requirement| default_binding(g, r, cs)->0)
}

/// `deps` lists, in increasing order, the distinct providers of `bindings` among the candidates.
pub open spec fn dependencies_of(bindings: Seq<Binding>, cs: Set<u64>, deps: Seq<ComponentInstanceId>) -> bool {
    &&& keys_sorted(deps)
    &&& forall|k: u64| #[trigger] seq_has_key(deps, k) <==> (cs.contains(k) && exists|i: int| 0 <= i < bindings.len() && bindings[i].provider.0 == k)
}

/// Mathematical content of an activation plan.
pub struct PlanView {
    pub instance_id: ComponentInstanceId,
    pub bindings: Seq<Binding>,
    pub dependencies: Seq<ComponentInstanceId>,
}

/// Complete graph mutation required to activate one ready Component Instance.
#[derive(Debug)]
pub struct ActivationPlan {
    /// Pending Component Instance that can now activate.
    pub instance_id: ComponentInstanceId,
    /// Explicit Bindings satisfying all of the Instance's Requirements.
    pub bindings: Vec<Binding>,
    /// Affected provider activations that must complete first.
    pub dependencies: Vec<ComponentInstanceId>,
}

impl View for ActivationPlan {
    type V = PlanView;

    open spec fn view(&self) -> PlanView {
        PlanView { instance_id: self.instance_id, bindings: self.bindings@, dependencies: self.dependencies@ }
    }
}

/// The allow-all plan of the Instance carrying key `k`.
pub open spec fn is_default_plan(g: GraphState, cs: Set<u64>, k: u64, p: PlanView) -> bool {
    &&& p.instance_id.0 == k
    &&& p.bindings == default_bindings(g, requirements_of(g, k), cs)
    &&& dependencies_of(p.bindings, cs, p.dependencies)
}

/// The Instance carrying key `k` can activate under allow-all policy.
pub open spec fn default_plan_exists(g: GraphState, cs: Set<u64>, k: u64) -> bool {
    plannable(g, k) && all_bindable(g, requirements_of(g, k), cs)
}

/// Any plan the Kernel builds binds each Requirement to a compatible candidate.
pub open spec fn plan_consistent(g: GraphState, cs: Set<u64>, k: u64, p: PlanView) -> bool {
    &&& p.instance_id.0 == k
    &&& plannable(g, k)
    &&& p.bindings.len() == requirements_of(g, k).len()
    &&& forall|i: int| 0 <= i < p.bindings.len() ==> binding_compatible(g, requirements_of(g, k)[i], cs, #[trigger] p.bindings[i])
    &&& dependencies_of(p.bindings, cs, p.dependencies)
}

/// Some Capability published by an Instance of `cs` implements `contract`.
pub open spec fn contract_provided(g: GraphState, cs: Set<u64>, contract: CapabilityContractId) -> bool {
    exists|k: u64| #[trigger] g.capabilities@.contains_key(k) && cs.contains(g.capabilities@[k].provider_id.0)
        && g.capabilities@[k].capability.contract == contract
}

/// A Pending Instance needs a Capability contract that `cs` provides.
pub open spec fn pulled_by(g: GraphState, cs: Set<u64>, inst: ComponentInstance) -> bool {
    &&& inst.resolution == ResolutionState::Pending
    &&& g.definitions@.contains_key(inst.definition_id.0)
    &&& exists|i: int| 0 <= i < g.definitions@[inst.definition_id.0].requirements@.len()
        && contract_provided(g, cs, #[trigger] g.definitions@[inst.definition_id.0].requirements@[i].contract)
}

/// Every Pending Instance pulled by `cs` is in `cs`.
pub open spec fn closed_under(g: GraphState, cs: Set<u64>) -> bool {
    forall|k: u64| #[trigger] g.instances@.contains_key(k) && pulled_by(g, cs, g.instances@[k]) ==> cs.contains(k)
}

/// `cs` is the least set containing `seed` and closed under pulling.
pub open spec fn is_affected_closure(g: GraphState, seed: u64, cs: Set<u64>) -> bool {
    &&& cs.contains(seed)
    &&& closed_under(g, cs)
    &&& forall|s: Set<u64>| s.contains(seed) && closed_under(g, s) ==> cs.subset_of(s)
}

impl GraphState {
    /// Collects all matching Active or affected provider candidates.
    pub fn compatible_providers(&self, contract: CapabilityContractId, cands: &KeyedVec<ComponentInstanceId>) -> (r: Vec<BindingCandidate>)
        requires
            self.wf(),
            cands.wf(),
        ensures
            r@ == compatible_candidates(*self, contract, cands@.dom()),
    {
        let ghost cs = cands@.dom();
        let ghost caps = self.capabilities.seq();
        let ghost pred = eligible_for(*self, contract, cs);
        let ghost f = |p: CapabilityPlacement| candidate_of(p);
        let mut out: Vec<BindingCandidate> = Vec::new();
        let mut i: usize = 0;
        while i < self.capabilities.len()
            invariant
                self.wf(),
                cands.wf(),
                cs == cands@.dom(),
                caps == self.capabilities.seq(),
                pred == eligible_for(*self, contract, cs),
                f == (|p: CapabilityPlacement| candidate_of(p)),
                i <= caps.len(),
                out@ == caps.take(i as int).filter(pred).map_values(f),
            decreases caps.len() - i,
        {
            let p = *self.capabilities.at(i);
            let eligible = if p.capability.contract == contract {
                match self.instances.get(p.provider_id.0) {
                    Some(inst) => inst.resolution == ResolutionState::Active || cands.contains_key(p.provider_id.0),
                    None => false,
                }
            } else {
                false
            };
            proof {
                assert(eligible == pred(p));
                assert(caps.take(i as int + 1) =~= caps.take(i as int).push(p));
                caps.take(i as int).lemma_filter_push(p, pred);
            }
            if eligible {
                out.push(BindingCandidate { capability: p.capability.id, provider: p.provider_id });
                proof {
                    let old_f = caps.take(i as int).filter(pred);
                    assert(old_f.push(p).map_values(f) =~= old_f.map_values(f).push(f(p)));
                }
            }
            i += 1;
        }
        assert(caps.take(caps.len() as int) =~= caps);
        out
    }

    /// The allow-all selection among compatible candidates.
    pub fn default_selection(&self, cands: &[BindingCandidate]) -> (r: Option<BindingCandidate>)
        requires
            self.wf(),
        ensures
            r == default_candidate(*self, cands@),
            r matches Some(c) ==> cands@.contains(c),
    {
        let ghost cs = cands@;
        let ghost p = |i: int| candidate_active(*self, cs[i]);
        let mut i: usize = 0;
        while i < cands.len()
            invariant
                self.wf(),
                cs == cands@,
                p == (|i: int| candidate_active(*self, cs[i])),
                i <= cs.len(),
                forall|j: int| 0 <= j < i ==> !#[trigger] p(j),
            decreases cs.len() - i,
        {
            let c = cands[i];
            let active = match self.instances.get(c.provider.0) {
                Some(inst) => inst.resolution == ResolutionState::Active,
                None => false,
            };
            if active {
                proof {
                    assert(p(i as int));
                    lemma_first_where_at(cs.len() as int, p, i as int);
                    assert(cs[i as int] == c);
                }
                return Some(c);
            }
            assert(!p(i as int));
            i += 1;
        }
        proof {
            lemma_first_where_none(cs.len() as int, p);
        }
        if cands.len() > 0 {
            assert(cs[0] == cands@[0]);
            Some(cands[0])
        } else {
            None
        }
    }

    /// Passes compatible providers through the ordered Addon Binding seam.
    pub fn binding_for_requirement(
        &self,
        requirement: &Requirement,
        cands: &KeyedVec<ComponentInstanceId>,
        hooks: &[Box<dyn BindingHook>],
    ) -> (r: Result<Option<Binding>, KernelError>)
        requires
            self.wf(),
            cands.wf(),
        ensures
            default_binding(*self, *requirement, cands@.dom()) is None ==> r == Ok::<Option<Binding>, KernelError>(None),
            hooks@.len() == 0 ==> r == Ok::<Option<Binding>, KernelError>(default_binding(*self, *requirement, cands@.dom())),
            r matches Ok(Some(b)) ==> binding_compatible(*self, *requirement, cands@.dom(), b),
            r matches Err(e) ==> binding_error_ok(*requirement, e),
            default_binding(*self, *requirement, cands@.dom()) is Some ==> exists|outs: Seq<(AddonId, BindingDecision)>|
                #[trigger] hooks_answered(hooks@, default_proposal(*self, *requirement, cands@.dom()),
                    default_candidate(*self, compatible_candidates(*self, requirement.contract, cands@.dom()))->0, outs)
                && r == binding_outcome(requirement.id, hooks_run(default_proposal(*self, *requirement, cands@.dom()),
                    default_candidate(*self, compatible_candidates(*self, requirement.contract, cands@.dom()))->0, outs).1),
            requirement_resolved(*self, *requirement, cands@.dom(), hooks@, r),
    {
        let compatible = self.compatible_providers(requirement.contract, cands);
        let default = match self.default_selection(compatible.as_slice()) {
            Some(c) => c,
            None => {
                return Ok(None);
            },
        };
        let ghost cands_view = compatible@;
        let proposal = BindingProposal::new(requirement.id, requirement.contract, compatible, default.capability);
        let ghost pv = proposal@;
        let evaluated = evaluate_binding_hooks(hooks, proposal, default);
        proof {
            assert(pv == default_proposal(*self, *requirement, cands@.dom()));
            let outs = choose|outs: Seq<(AddonId, BindingDecision)>| #[trigger] hooks_answered(hooks@, pv, default, outs)
                && evaluated == hooks_run(pv, default, outs).1;
            assert(hooks_answered(hooks@, pv, default, outs));
        }
        match evaluated {
            Ok(selected) => {
                proof {
                    assert(cands_view.contains(selected));
                }
                Ok(Some(Binding::new(requirement.id, selected.capability, selected.provider)))
            },
            Err(e) => Err(e),
        }
    }

    /// The distinct providers of `bindings` that are affected candidates, in increasing order.
    pub fn candidate_dependencies(bindings: &Vec<Binding>, cands: &KeyedVec<ComponentInstanceId>) -> (r: Vec<ComponentInstanceId>)
        requires
            cands.wf(),
        ensures
            dependencies_of(bindings@, cands@.dom(), r@),
    {
        let mut deps: KeyedVec<ComponentInstanceId> = KeyedVec::new();
        let mut i: usize = 0;
        while i < bindings.len()
            invariant
                cands.wf(),
                deps.wf(),
                i <= bindings@.len(),
                forall|k: u64| #[trigger] deps@.contains_key(k) <==> (cands@.dom().contains(k)
                    && exists|j: int| 0 <= j < i && bindings@[j].provider.0 == k),
                forall|k: u64| #[trigger] deps@.contains_key(k) ==> deps@[k].0 == k,
            decreases bindings@.len() - i,
        {
            let provider = bindings[i].provider;
            if cands.contains_key(provider.0) {
                deps.upsert(provider);
            }
            proof {
                assert forall|k: u64| #[trigger] deps@.contains_key(k) <==> (cands@.dom().contains(k)
                    && exists|j: int| 0 <= j < i + 1 && bindings@[j].provider.0 == k) by {
                    if cands@.dom().contains(k) && exists|j: int| 0 <= j < i + 1 && bindings@[j].provider.0 == k {
                        let j = choose|j: int| 0 <= j < i + 1 && bindings@[j].provider.0 == k;
                        if j < i {
                            assert(exists|j: int| 0 <= j < i && bindings@[j].provider.0 == k);
                        }
                    }
                }
            }
            i += 1;
        }
        proof {
            deps.lemma_view();
            assert forall|k: u64| #[trigger] seq_has_key(deps.seq(), k) <==> deps@.contains_key(k) by {
                if seq_has_key(deps.seq(), k) {
                    let j = choose|j: int| 0 <= j < deps.seq().len() && #[trigger] deps.seq()[j].spec_key() == k;
                    assert(deps@.contains_key(deps.seq()[j].spec_key()));
                }
                if deps@.contains_key(k) {
                    let j = choose|j: int| 0 <= j < deps.seq().len() && deps.seq()[j].spec_key() == k;
                    assert(deps.seq()[j].spec_key() == k);
                }
            }
        }
        deps.into_vec()
    }

    /// Builds one activation when every Requirement has an admitted provider.
    pub fn activation_plan(
        &self,
        instance_id: ComponentInstanceId,
        cands: &KeyedVec<ComponentInstanceId>,
        hooks: &[Box<dyn BindingHook>],
    ) -> (r: Result<Option<ActivationPlan>, KernelError>)
        requires
            self.wf(),
            cands.wf(),
        ensures
            !plannable(*self, instance_id.0) ==> r == Ok::<Option<ActivationPlan>, KernelError>(None),
            hooks@.len() == 0 ==> r is Ok && (r->Ok_0 is Some <==> default_plan_exists(*self, cands@.dom(), instance_id.0)),
            hooks@.len() == 0 ==> (r matches Ok(Some(p)) ==> is_default_plan(*self, cands@.dom(), instance_id.0, p@)),
            r matches Ok(Some(p)) ==> plan_consistent(*self, cands@.dom(), instance_id.0, p@),
            r matches Err(e) ==> plannable(*self, instance_id.0)
                && exists|i: int| 0 <= i < requirements_of(*self, instance_id.0).len()
                    && binding_error_ok(#[trigger] requirements_of(*self, instance_id.0)[i], e),
            plannable(*self, instance_id.0) ==> exists|rs: Seq<Result<Option<Binding>, KernelError>>| {
                &&& #[trigger] resolutions_made(*self, requirements_of(*self, instance_id.0), cands@.dom(), hooks@, rs)
                &&& all_bound(rs) ==> rs.len() == requirements_of(*self, instance_id.0).len()
                &&& all_bound(rs) ==> (r matches Ok(Some(p)) && p@.instance_id == instance_id && p@.bindings == bound_bindings(rs)
                    && dependencies_of(p@.bindings, cands@.dom(), p@.dependencies))
                &&& !all_bound(rs) ==> (rs.last() matches Err(e) ==> r == Err::<Option<ActivationPlan>, KernelError>(e))
                    && (rs.last() is Ok ==> r == Ok::<Option<ActivationPlan>, KernelError>(None))
            },
    {
        let ghost cs = cands@.dom();
        let instance = match self.instances.get(instance_id.0) {
            Some(inst) => *inst,
            None => {
                return Ok(None);
            },
        };
        let definition = match self.definitions.get(instance.definition_id.0) {
            Some(d) => d,
            None => {
                return Ok(None);
            },
        };
        let ghost reqs = requirements_of(*self, instance_id.0);
        assert(reqs == definition.requirements@);
        let mut bindings: Vec<Binding> = Vec::new();
        let ghost mut rs: Seq<Result<Option<Binding>, KernelError>> = Seq::empty();
        assert(bound_bindings(rs) =~= bindings@);
        let mut i: usize = 0;
        while i < definition.requirements.len()
            invariant
                self.wf(),
                cands.wf(),
                cs == cands@.dom(),
                reqs == definition.requirements@,
                reqs == requirements_of(*self, instance_id.0),
                plannable(*self, instance_id.0),
                i <= reqs.len(),
                bindings@.len() == i,
                forall|j: int| 0 <= j < i ==> binding_compatible(*self, reqs[j], cs, #[trigger] bindings@[j]),
                hooks@.len() == 0 ==> forall|j: int| 0 <= j < i ==> #[trigger] default_binding(*self, reqs[j], cs) == Some(bindings@[j]),
                rs.len() == i,
                forall|j: int| 0 <= j < i ==> requirement_resolved(*self, reqs[j], cs, hooks@, #[trigger] rs[j]),
                all_bound(rs),
                bound_bindings(rs) == bindings@,
            decreases reqs.len() - i,
        {
            let req = definition.requirements[i];
            let resolved = self.binding_for_requirement(&req, cands, hooks);
            let ghost old_rs = rs;
            proof {
                rs = rs.push(resolved);
                assert(rs.drop_last() =~= old_rs);
            }
            match resolved {
                Err(e) => {
                    assert(binding_error_ok(reqs[i as int], e));
                    proof {
                        assert(!all_bound(rs)) by { assert(!(rs[i as int] is Ok)); }
                        assert(resolutions_made(*self, reqs, cs, hooks@, rs));
                    }
                    return Err(e);
                },
                Ok(None) => {
                    proof {
                        if hooks@.len() == 0 {
                            assert(default_binding(*self, reqs[i as int], cs) is None);
                            assert(!all_bindable(*self, reqs, cs));
                        }
                        assert(!all_bound(rs)) by { assert(!(rs[i as int]->Ok_0 is Some)); }
                        assert(resolutions_made(*self, reqs, cs, hooks@, rs));
                    }
                    return Ok(None);
                },
                Ok(Some(b)) => {
                    bindings.push(b);
                    proof {
                        assert(bound_bindings(rs) =~= bindings@);
                    }
                },
            }
            i += 1;
        }
        let dependencies = Self::candidate_dependencies(&bindings, cands);
        let plan = ActivationPlan { instance_id, bindings, dependencies };
        proof {
            if hooks@.len() == 0 {
                assert(all_bindable(*self, reqs, cs));
                assert(plan.bindings@ =~= default_bindings(*self, reqs, cs));
            }
            assert(resolutions_made(*self, reqs, cs, hooks@, rs));
            assert(plan@.bindings == bound_bindings(rs));
        }
        Ok(Some(plan))
    }

    /// Reports whether some Capability published by a candidate implements `contract`.
    pub fn contract_provided(&self, cands: &KeyedVec<ComponentInstanceId>, contract: CapabilityContractId) -> (r: bool)
        requires
            self.wf(),
            cands.wf(),
        ensures
            r == contract_provided(*self, cands@.dom(), contract),
    {
        proof {
            self.capabilities.lemma_view();
        }
        let mut i: usize = 0;
        while i < self.capabilities.len()
            invariant
                self.wf(),
                cands.wf(),
                i <= self.capabilities.seq().len(),
                forall|j: int| 0 <= j < i ==> !(cands@.dom().contains(#[trigger] self.capabilities.seq()[j].provider_id.0)
                    && self.capabilities.seq()[j].capability.contract == contract),
            decreases self.capabilities.seq().len() - i,
        {
            let p = *self.capabilities.at(i);
            if p.capability.contract == contract && cands.contains_key(p.provider_id.0) {
                proof {
                    self.capabilities.lemma_view();
                    let k = self.capabilities.seq()[i as int].spec_key();
                    assert(self.capabilities@.contains_key(k));
                }
                return true;
            }
            i += 1;
        }
        proof {
            self.capabilities.lemma_view();
            if contract_provided(*self, cands@.dom(), contract) {
                let k = choose|k: u64| #[trigger] self.capabilities@.contains_key(k) && cands@.dom().contains(self.capabilities@[k].provider_id.0)
                    && self.capabilities@[k].capability.contract == contract;
                let j = choose|j: int| 0 <= j < self.capabilities.seq().len() && self.capabilities.seq()[j].spec_key() == k;
                assert(self.capabilities.seq()[j] == self.capabilities@[k]);
            }
        }
        false
    }

    /// Reports whether the candidates pull one Instance into the affected set.
    pub fn is_pulled(&self, cands: &KeyedVec<ComponentInstanceId>, instance: &ComponentInstance) -> (r: bool)
        requires
            self.wf(),
            cands.wf(),
        ensures
            r == pulled_by(*self, cands@.dom(), *instance),
    {
        if instance.resolution != ResolutionState::Pending {
            return false;
        }
        let definition = match self.definitions.get(instance.definition_id.0) {
            Some(d) => d,
            None => {
                return false;
            },
        };
        let ghost reqs = definition.requirements@;
        let mut i: usize = 0;
        while i < definition.requirements.len()
            invariant
                self.wf(),
                cands.wf(),
                reqs == definition.requirements@,
                instance.resolution == ResolutionState::Pending,
                self.definitions@.contains_key(instance.definition_id.0),
                *definition == self.definitions@[instance.definition_id.0],
                i <= reqs.len(),
                forall|j: int| 0 <= j < i ==> !contract_provided(*self, cands@.dom(), #[trigger] reqs[j].contract),
            decreases reqs.len() - i,
        {
            if self.contract_provided(cands, definition.requirements[i].contract) {
                assert(contract_provided(*self, cands@.dom(), reqs[i as int].contract));
                return true;
            }
            i += 1;
        }
        false
    }

    /// The first Instance, in identity order, pulled by the candidates and not yet among them.
    pub fn next_pulled(&self, cands: &KeyedVec<ComponentInstanceId>) -> (r: Option<ComponentInstanceId>)
        requires
            self.wf(),
            cands.wf(),
        ensures
            r matches Some(id) ==> self.instances@.contains_key(id.0) && !cands@.contains_key(id.0)
                && pulled_by(*self, cands@.dom(), self.instances@[id.0]),
            r is None ==> closed_under(*self, cands@.dom()),
    {
        proof {
            self.instances.lemma_view();
        }
        let mut i: usize = 0;
        while i < self.instances.len()
            invariant
                self.wf(),
                cands.wf(),
                i <= self.instances.seq().len(),
                forall|j: int| 0 <= j < i ==> cands@.contains_key(#[trigger] self.instances.seq()[j].id.0)
                    || !pulled_by(*self, cands@.dom(), self.instances.seq()[j]),
            decreases self.instances.seq().len() - i,
        {
            let inst = *self.instances.at(i);
            if !cands.contains_key(inst.id.0) && self.is_pulled(cands, &inst) {
                proof {
                    self.instances.lemma_view();
                    assert(self.instances@.contains_key(self.instances.seq()[i as int].spec_key()));
                }
                return Some(inst.id);
            }
            i += 1;
        }
        proof {
            self.instances.lemma_view();
            assert forall|k: u64| #[trigger] self.instances@.contains_key(k) && pulled_by(*self, cands@.dom(), self.instances@[k])
                implies cands@.dom().contains(k) by {
                let j = choose|j: int| 0 <= j < self.instances.seq().len() && self.instances.seq()[j].spec_key() == k;
                assert(self.instances.seq()[j] == self.instances@[k]);
            }
        }
        None
    }

    /// Computes the Pending consumer closure reachable from changed Capabilities.
    pub fn affected_candidates(&self, seed: ComponentInstanceId) -> (r: KeyedVec<ComponentInstanceId>)
        requires
            self.wf(),
        ensures
            r.wf(),
            is_affected_closure(*self, seed.0, r@.dom()),
            forall|k: u64| #[trigger] r@.contains_key(k) ==> r@[k].0 == k,
    {
        let mut cands: KeyedVec<ComponentInstanceId> = KeyedVec::new();
        cands.insert(seed);
        proof {
            self.instances.lemma_view();
        }
        loop
            invariant
                self.wf(),
                cands.wf(),
                self.instances@.dom().finite(),
                cands@.contains_key(seed.0),
                forall|k: u64| #[trigger] cands@.contains_key(k) ==> cands@[k].0 == k,
                forall|s: Set<u64>| s.contains(seed.0) && closed_under(*self, s) ==> #[trigger] cands@.dom().subset_of(s),
            ensures
                cands.wf(),
                cands@.contains_key(seed.0),
                forall|k: u64| #[trigger] cands@.contains_key(k) ==> cands@[k].0 == k,
                closed_under(*self, cands@.dom()),
                forall|s: Set<u64>| s.contains(seed.0) && closed_under(*self, s) ==> #[trigger] cands@.dom().subset_of(s),
            decreases self.instances@.dom().difference(cands@.dom()).len(),
        {
            match self.next_pulled(&cands) {
                None => {
                    break;
                },
                Some(id) => {
                    let ghost before = cands@.dom();
                    proof {
                        assert forall|s: Set<u64>| s.contains(seed.0) && closed_under(*self, s) implies #[trigger] before.insert(id.0).subset_of(s) by {
                            assert(before.subset_of(s));
                            let inst = self.instances@[id.0];
                            let reqs = self.definitions@[inst.definition_id.0].requirements@;
                            let i = choose|i: int| 0 <= i < reqs.len() && contract_provided(*self, before, #[trigger] reqs[i].contract);
                            let k = choose|k: u64| #[trigger] self.capabilities@.contains_key(k) && before.contains(self.capabilities@[k].provider_id.0)
                                && self.capabilities@[k].capability.contract == reqs[i].contract;
                            assert(contract_provided(*self, s, reqs[i].contract));
                            assert(pulled_by(*self, s, inst));
                        }
                        self.instances@.dom().lemma_set_insert_diff_decreases(before, id.0);
                    }
                    cands.insert(id);
                    assert(cands@.dom() =~= before.insert(id.0));
                },
            }
        }
        cands
    }
}


/// The views of a sequence of plans.
pub open spec fn plan_views(s: Seq<ActivationPlan>) -> Seq<PlanView> {
    s.map_values(|p: ActivationPlan| p@)
}

/// The views of a sequence of fronts.
pub open spec fn front_views(s: Seq<Vec<ActivationPlan>>) -> Seq<Seq<PlanView>> {
    s.map_values(|f: Vec<ActivationPlan>| plan_views(f@))
}

/// Every dependency of a plan has completed.
pub open spec fn plan_ready(completed: Set<u64>, p: PlanView) -> bool {
    forall|i: int| 0 <= i < p.dependencies.len() ==> completed.contains(#[trigger] p.dependencies[i].0)
}

/// Plans whose dependencies have all completed.
pub open spec fn ready_in(completed: Set<u64>) -> spec_fn(PlanView) -> bool {
    |p: PlanView| plan_ready(completed, p)
}

/// Plans still waiting for a dependency.
pub open spec fn waiting_in(completed: Set<u64>) -> spec_fn(PlanView) -> bool {
    |p: PlanView| !plan_ready(completed, p)
}

/// The Instances activated by a sequence of plans.
pub open spec fn plan_ids(s: Seq<PlanView>) -> Set<u64> {
    Set::new(|k: u64| exists|i: int| 0 <= i < s.len() && s[i].instance_id.0 == k)
}

/// A sequence splits into the elements satisfying a predicate and the others.
pub proof fn lemma_filter_partition<A>(s: Seq<A>, p: spec_fn(A) -> bool, q: spec_fn(A) -> bool)
    requires
        forall|x: A| #[trigger] q(x) == !p(x),
    ensures
        s.filter(p).len() + s.filter(q).len() == s.len(),
    decreases s.len(),
{
    reveal(Seq::filter);
    if s.len() > 0 {
        lemma_filter_partition(s.drop_last(), p, q);
    }
}

/// The dependency fronts of the remaining plans once `completed` activations are done.
///
/// Each front gathers, in order, every remaining plan whose dependencies have all
/// completed; plans that never become ready are left out.
pub open spec fn fronts_from(remaining: Seq<PlanView>, completed: Set<u64>) -> Seq<Seq<PlanView>>
    decreases remaining.len(),
{
    let ready = remaining.filter(ready_in(completed));
    let rest = remaining.filter(waiting_in(completed));
    if ready.len() == 0 {
        Seq::empty()
    } else {
        proof {
            lemma_filter_partition(remaining, ready_in(completed), waiting_in(completed));
        }
        seq![ready] + fronts_from(rest, completed + plan_ids(ready))
    }
}

/// Plans strictly ordered by Instance identity.
pub open spec fn plans_ordered(s: Seq<PlanView>) -> bool {
    forall|i: int, j: int| 0 <= i < j < s.len() ==> (#[trigger] s[i]).instance_id.0 < (#[trigger] s[j]).instance_id.0
}

/// Filtering keeps plans ordered by Instance identity.
pub proof fn lemma_filter_ordered(s: Seq<PlanView>, p: spec_fn(PlanView) -> bool)
    requires
        plans_ordered(s),
    ensures
        plans_ordered(s.filter(p)),
    decreases s.len(),
{
    if s.len() > 0 {
        let t = s.drop_last();
        assert(plans_ordered(t));
        lemma_filter_ordered(t, p);
        assert(s =~= t.push(s.last()));
        t.lemma_filter_push(s.last(), p);
        let sub = t.filter(p);
        if p(s.last()) {
            assert forall|i: int| 0 <= i < sub.len() implies (#[trigger] sub[i]).instance_id.0 < s.last().instance_id.0 by {
                t.lemma_filter_contains_rev(p, sub[i]);
                let j = choose|j: int| 0 <= j < t.len() && t[j] == sub[i];
                assert(s[j] == t[j]);
                assert(s[s.len() - 1] == s.last());
            }
            let f = sub.push(s.last());
            assert forall|i: int, j: int| 0 <= i < j < f.len() implies (#[trigger] f[i]).instance_id.0 < (#[trigger] f[j]).instance_id.0 by {
                if j == f.len() - 1 {
                    assert(f[i] == sub[i]);
                } else {
                    assert(f[i] == sub[i] && f[j] == sub[j]);
                }
            }
            assert(s.filter(p) == f);
        } else {
            assert(s.filter(p) == sub);
        }
    }
}

/// Fronts formed from ordered plans are each ordered by Instance identity.
pub proof fn lemma_fronts_ordered(plans: Seq<PlanView>, completed: Set<u64>, i: int)
    requires
        plans_ordered(plans),
        0 <= i < fronts_from(plans, completed).len(),
    ensures
        plans_ordered(fronts_from(plans, completed)[i]),
    decreases plans.len(),
{
    let ready = plans.filter(ready_in(completed));
    let rest = plans.filter(waiting_in(completed));
    lemma_filter_partition(plans, ready_in(completed), waiting_in(completed));
    let later = fronts_from(rest, completed + plan_ids(ready));
    assert(fronts_from(plans, completed) == seq![ready] + later);
    if i == 0 {
        lemma_filter_ordered(plans, ready_in(completed));
    } else {
        lemma_filter_ordered(plans, waiting_in(completed));
        lemma_fronts_ordered(rest, completed + plan_ids(ready), i - 1);
    }
}

/// Ordered dependency fronts affected by one registration mutation.
#[derive(Debug)]
pub struct ActivationExecutionPlan {
    /// Deterministic fronts whose entries are mutually independent.
    pub fronts: Vec<Vec<ActivationPlan>>,
}

impl ActivationExecutionPlan {
    /// Converts private Binding plans into the inspectable scheduling contract.
    pub fn inspectable(&self) -> (r: ExecutionPlan)
        ensures
            r.fronts@.len() == self.fronts@.len(),
            forall|i: int| 0 <= i < r.fronts@.len() ==> #[trigger] r.fronts@[i].work@.len() == self.fronts@[i]@.len()
                && forall|j: int| 0 <= j < r.fronts@[i].work@.len() ==> (#[trigger] r.fronts@[i].work@[j])@
                    == (WorkView { instance: self.fronts@[i]@[j].instance_id, dependencies: self.fronts@[i]@[j].dependencies@ }),
    {
        let mut fronts: Vec<ExecutionFront> = Vec::new();
        let mut i: usize = 0;
        while i < self.fronts.len()
            invariant
                i <= self.fronts@.len(),
                fronts@.len() == i,
                forall|a: int| 0 <= a < i ==> #[trigger] fronts@[a].work@.len() == self.fronts@[a]@.len()
                    && forall|j: int| 0 <= j < fronts@[a].work@.len() ==> (#[trigger] fronts@[a].work@[j])@
                        == (WorkView { instance: self.fronts@[a]@[j].instance_id, dependencies: self.fronts@[a]@[j].dependencies@ }),
            decreases self.fronts@.len() - i,
        {
            let front = &self.fronts[i];
            let mut work: Vec<ExecutionWork> = Vec::new();
            let mut j: usize = 0;
            while j < front.len()
                invariant
                    i < self.fronts@.len(),
                    *front == self.fronts@[i as int],
                    j <= front@.len(),
                    work@.len() == j,
                    forall|b: int| 0 <= b < j ==> (#[trigger] work@[b])@
                        == (WorkView { instance: front@[b].instance_id, dependencies: front@[b].dependencies@ }),
                decreases front@.len() - j,
            {
                let plan = &front[j];
                work.push(ExecutionWork::new(plan.instance_id, plan.dependencies.clone()));
                j += 1;
            }
            fronts.push(ExecutionFront::new(work));
            i += 1;
        }
        ExecutionPlan::new(fronts)
    }
}

impl GraphState {

    /// Reports whether every dependency of a plan has completed.
    pub fn plan_is_ready(plan: &ActivationPlan, completed: &KeyedVec<ComponentInstanceId>) -> (r: bool)
        requires
            completed.wf(),
        ensures
            r == plan_ready(completed@.dom(), plan@),
    {
        let mut i: usize = 0;
        while i < plan.dependencies.len()
            invariant
                completed.wf(),
                i <= plan.dependencies@.len(),
                forall|j: int| 0 <= j < i ==> completed@.dom().contains(#[trigger] plan.dependencies@[j].0),
            decreases plan.dependencies@.len() - i,
        {
            if !completed.contains_key(plan.dependencies[i].0) {
                assert(!completed@.dom().contains(plan@.dependencies[i as int].0));
                return false;
            }
            i += 1;
        }
        true
    }

    /// Splits remaining plans into the ready frontier and the plans still waiting, keeping order.
    pub fn take_ready(remaining: Vec<ActivationPlan>, completed: &KeyedVec<ComponentInstanceId>) -> (r: (Vec<ActivationPlan>, Vec<ActivationPlan>))
        requires
            completed.wf(),
        ensures
            plan_views(r.0@) == plan_views(remaining@).filter(ready_in(completed@.dom())),
            plan_views(r.1@) == plan_views(remaining@).filter(waiting_in(completed@.dom())),
    {
        let ghost all = plan_views(remaining@);
        let ghost c = completed@.dom();
        let mut source = remaining;
        let mut ready: Vec<ActivationPlan> = Vec::new();
        let mut waiting: Vec<ActivationPlan> = Vec::new();
        let ghost mut taken: int = 0;
        while source.len() > 0
            invariant
                completed.wf(),
                c == completed@.dom(),
                0 <= taken <= all.len(),
                plan_views(source@) == all.skip(taken),
                plan_views(ready@) == all.take(taken).filter(ready_in(c)),
                plan_views(waiting@) == all.take(taken).filter(waiting_in(c)),
            decreases source@.len(),
        {
            let ghost before = source@;
            let plan = source.remove(0);
            proof {
                assert(plan_views(before)[0] == plan@);
                assert(plan_views(before).len() == before.len());
                assert(taken < all.len());
                assert(all.skip(taken)[0] == all[taken]);
                assert(all[taken] == plan@);
                assert(all.take(taken + 1) =~= all.take(taken).push(plan@));
                all.take(taken).lemma_filter_push(plan@, ready_in(c));
                all.take(taken).lemma_filter_push(plan@, waiting_in(c));
                assert(source@ =~= before.remove(0));
                assert forall|j: int| 0 <= j < plan_views(source@).len() implies #[trigger] plan_views(source@)[j] == all.skip(taken + 1)[j] by {
                    assert(source@[j] == before[j + 1]);
                    assert(plan_views(before)[j + 1] == all.skip(taken)[j + 1]);
                }
                assert(plan_views(source@) =~= all.skip(taken + 1));
            }
            let is_ready = Self::plan_is_ready(&plan, completed);
            if is_ready {
                let ghost rv = plan_views(ready@);
                ready.push(plan);
                assert(plan_views(ready@) =~= rv.push(plan_views(ready@).last()));
            } else {
                let ghost wv = plan_views(waiting@);
                waiting.push(plan);
                assert(plan_views(waiting@) =~= wv.push(plan_views(waiting@).last()));
            }
            proof {
                taken = taken + 1;
            }
        }
        proof {
            assert(taken == all.len());
            assert(all.take(taken) =~= all);
        }
        (ready, waiting)
    }

    /// Topologically groups ready work into deterministic independent fronts.
    pub fn ordered_fronts(plans: Vec<ActivationPlan>) -> (r: Vec<Vec<ActivationPlan>>)
        ensures
            front_views(r@) == fronts_from(plan_views(plans@), Set::<u64>::empty()),
            plans_ordered(plan_views(plans@)) ==> forall|i: int| 0 <= i < front_views(r@).len() ==> plans_ordered(#[trigger] front_views(r@)[i]),
    {
        let ghost all = plan_views(plans@);
        let mut remaining = plans;
        let mut completed: KeyedVec<ComponentInstanceId> = KeyedVec::new();
        let mut fronts: Vec<Vec<ActivationPlan>> = Vec::new();
        assert(completed@.dom() =~= Set::<u64>::empty());
        loop
            invariant
                completed.wf(),
                front_views(fronts@) + fronts_from(plan_views(remaining@), completed@.dom()) == fronts_from(all, Set::<u64>::empty()),
            ensures
                front_views(fronts@) == fronts_from(all, Set::<u64>::empty()),
            decreases remaining@.len(),
        {
            let ghost rem = plan_views(remaining@);
            let ghost c = completed@.dom();
            let ghost old_len = remaining@.len();
            let (ready, waiting) = Self::take_ready(remaining, &completed);
            if ready.len() == 0 {
                assert(fronts_from(rem, c) == Seq::<Seq<PlanView>>::empty());
                assert(front_views(fronts@) + Seq::<Seq<PlanView>>::empty() =~= front_views(fronts@));
                break;
            }
            let ghost rv = plan_views(ready@);
            let mut i: usize = 0;
            while i < ready.len()
                invariant
                    completed.wf(),
                    i <= ready@.len(),
                    rv == plan_views(ready@),
                    completed@.dom() == c + plan_ids(rv.take(i as int)),
                decreases ready@.len() - i,
            {
                completed.upsert(ready[i].instance_id);
                proof {
                    assert(rv[i as int] == ready@[i as int]@);
                    let t1 = rv.take(i as int + 1);
                    let t0 = rv.take(i as int);
                    assert forall|k: u64| plan_ids(t1).contains(k) <==> plan_ids(t0).contains(k) || k == rv[i as int].instance_id.0 by {
                        if plan_ids(t1).contains(k) {
                            let j = choose|j: int| 0 <= j < t1.len() && #[trigger] t1[j].instance_id.0 == k;
                            if j < i {
                                assert(t0[j] == t1[j]);
                            }
                        }
                        if plan_ids(t0).contains(k) {
                            let j = choose|j: int| 0 <= j < t0.len() && #[trigger] t0[j].instance_id.0 == k;
                            assert(t1[j] == t0[j]);
                        }
                        if k == rv[i as int].instance_id.0 {
                            assert(t1[i as int] == rv[i as int]);
                        }
                    }
                    assert(completed@.dom() =~= c + plan_ids(t1));
                }
                i += 1;
            }
            proof {
                assert(rv.take(rv.len() as int) =~= rv);
                lemma_filter_partition(rem, ready_in(c), waiting_in(c));
                let fv = front_views(fronts@);
                assert(fronts_from(rem, c) == seq![rv] + fronts_from(plan_views(waiting@), c + plan_ids(rv)));
                assert(fv + fronts_from(rem, c) =~= fv.push(rv) + fronts_from(plan_views(waiting@), c + plan_ids(rv)));
            }
            let ghost fv = front_views(fronts@);
            fronts.push(ready);
            assert(front_views(fronts@) =~= fv.push(rv));
            remaining = waiting;
        }
        proof {
            if plans_ordered(all) {
                assert forall|i: int| 0 <= i < front_views(fronts@).len() implies plans_ordered(#[trigger] front_views(fronts@)[i]) by {
                    lemma_fronts_ordered(all, Set::<u64>::empty(), i);
                }
            }
        }
        fronts
    }
}


/// `plans` lists, in increasing Instance order, the allow-all plan of every candidate that can activate.
pub open spec fn default_plans(g: GraphState, cs: Set<u64>, plans: Seq<PlanView>) -> bool {
    &&& forall|i: int, j: int| 0 <= i < j < plans.len() ==> #[trigger] plans[i].instance_id.0 < #[trigger] plans[j].instance_id.0
    &&& forall|i: int| 0 <= i < plans.len() ==> cs.contains(#[trigger] plans[i].instance_id.0)
        && default_plan_exists(g, cs, plans[i].instance_id.0) && is_default_plan(g, cs, plans[i].instance_id.0, plans[i])
    &&& forall|k: u64| cs.contains(k) && #[trigger] default_plan_exists(g, cs, k) ==> exists|i: int| 0 <= i < plans.len() && plans[i].instance_id.0 == k
}

impl GraphState {
    /// Plans only pending work reachable from the registered Component Instance.
    #[verifier::rlimit(80)]
    ///
    /// Without hooks the plan is the allow-all plan of the affected closure; with
    /// hooks every plan binds compatible candidates and every error names a
    /// Requirement of a candidate.
    pub fn affected_activation_plan(&self, seed: ComponentInstanceId, hooks: &[Box<dyn BindingHook>]) -> (r: Result<ActivationExecutionPlan, KernelError>)
        requires
            self.wf(),
        ensures
            hooks@.len() == 0 ==> r is Ok && exists|cs: Set<u64>, plans: Seq<PlanView>|
                is_affected_closure(*self, seed.0, cs) && default_plans(*self, cs, plans)
                && front_views(r->Ok_0.fronts@) == fronts_from(plans, Set::<u64>::empty()),
            r matches Ok(p) ==> exists|cs: Set<u64>, plans: Seq<PlanView>|
                is_affected_closure(*self, seed.0, cs)
                && (forall|i: int| 0 <= i < plans.len() ==> plan_consistent(*self, cs, #[trigger] plans[i].instance_id.0, plans[i]))
                && front_views(p.fronts@) == fronts_from(plans, Set::<u64>::empty()),
            r matches Err(e) ==> exists|k: u64, i: int| plannable(*self, k) && 0 <= i < requirements_of(*self, k).len()
                && binding_error_ok(#[trigger] requirements_of(*self, k)[i], e),
    {
        let cands = self.affected_candidates(seed);
        let ghost cs = cands@.dom();
        let ghost order = cands.seq();
        proof {
            cands.lemma_view();
        }
        let mut plans: Vec<ActivationPlan> = Vec::new();
        let mut i: usize = 0;
        while i < cands.len()
            invariant
                self.wf(),
                cands.wf(),
                cs == cands@.dom(),
                order == cands.seq(),
                is_affected_closure(*self, seed.0, cs),
                forall|k: u64| #[trigger] cands@.contains_key(k) ==> cands@[k].0 == k,
                i <= order.len(),
                forall|a: int, b: int| 0 <= a < b < plans@.len() ==> #[trigger] plans@[a].instance_id.0 < #[trigger] plans@[b].instance_id.0,
                i < order.len() ==> forall|a: int| 0 <= a < plans@.len() ==> #[trigger] plans@[a].instance_id.0 < order[i as int].0,
                forall|a: int| 0 <= a < plans@.len() ==> cs.contains(#[trigger] plans@[a].instance_id.0),
                forall|a: int| 0 <= a < plans@.len() ==> plan_consistent(*self, cs, #[trigger] plans@[a].instance_id.0, plans@[a]@),
                hooks@.len() == 0 ==> forall|a: int| 0 <= a < plans@.len() ==> default_plan_exists(*self, cs, #[trigger] plans@[a].instance_id.0)
                    && is_default_plan(*self, cs, plans@[a].instance_id.0, plans@[a]@),
                hooks@.len() == 0 ==> forall|j: int| 0 <= j < i && #[trigger] default_plan_exists(*self, cs, order[j].0)
                    ==> exists|a: int| 0 <= a < plans@.len() && plans@[a].instance_id == order[j],
                
            decreases order.len() - i,
        {
            let id = *cands.at(i);
            proof {
                cands.lemma_view();
                assert(cands@.contains_key(order[i as int].spec_key()));
                assert(cs.contains(id.0));
            }
            let ghost old_plans = plans@;
            match self.activation_plan(id, &cands, hooks) {
                Err(e) => {
                    return Err(e);
                },
                Ok(None) => {},
                Ok(Some(plan)) => {
                    plans.push(plan);
                },
            }
            proof {
                if i + 1 < order.len() {
                    assert(order[i as int].spec_key() < order[i + 1].spec_key());
                }
                if hooks@.len() == 0 {
                    assert forall|j: int| 0 <= j < i + 1 && #[trigger] default_plan_exists(*self, cs, order[j].0)
                        implies exists|a: int| 0 <= a < plans@.len() && plans@[a].instance_id == order[j] by {
                        if j < i {
                            assert(default_plan_exists(*self, cs, order[j].0));
                            let a = choose|a: int| 0 <= a < old_plans.len() && old_plans[a].instance_id == order[j];
                            assert(plans@[a] == old_plans[a]);
                        } else {
                            assert(order[j] == id);
                            assert(plans@[plans@.len() - 1].instance_id == id);
                        }
                    }
                }
            }
            i += 1;
        }
        let ghost pv = plan_views(plans@);
        proof {
            cands.lemma_view();
            assert forall|a: int| 0 <= a < pv.len() implies #[trigger] cs.contains(pv[a].instance_id.0) by {
                assert(pv[a] == plans@[a]@);
            }
            if hooks@.len() == 0 {
                assert forall|k: u64| cs.contains(k) && #[trigger] default_plan_exists(*self, cs, k)
                    implies exists|a: int| 0 <= a < pv.len() && pv[a].instance_id.0 == k by {
                    let j = choose|j: int| 0 <= j < order.len() && order[j].spec_key() == k;
                    assert(order[j].0 == k);
                    let a = choose|a: int| 0 <= a < plans@.len() && plans@[a].instance_id == order[j];
                    assert(pv[a].instance_id.0 == k);
                }
                assert(default_plans(*self, cs, pv));
            }
            assert forall|a: int| 0 <= a < pv.len() implies plan_consistent(*self, cs, #[trigger] pv[a].instance_id.0, pv[a]) by {
                assert(pv[a] == plans@[a]@);
            }
        }
        let fronts = Self::ordered_fronts(plans);
        Ok(ActivationExecutionPlan { fronts })
    }
}

/// A Runtime freshly started for an Instance with an empty Mailbox.
pub open spec fn fresh_runtime(rt: ComponentRuntime, id: ComponentRuntimeId, instance_id: ComponentInstanceId, policy: MailboxPolicy) -> bool {
    &&& rt.id == id
    &&& rt.instance_id == instance_id
    &&& rt.mailbox.policy == policy
    &&& rt.mailbox.pending().len() == 0
    &&& rt.mailbox.bounded()
}

/// The Mailbox policy declared by the Definition of a living Instance, or the default one.
pub open spec fn declared_mailbox_policy(g: GraphState, k: u64, policy: MailboxPolicy) -> bool {
    if plannable(g, k) {
        policy == g.definitions@[g.instances@[k].definition_id.0].routing.mailbox_policy
    } else {
        MailboxPolicy::spec_default(policy)
    }
}

/// The activation effect of one plan on a graph.
pub open spec fn activation_applied(old: GraphState, new: GraphState, plan: PlanView, runtime_id: ComponentRuntimeId) -> bool {
    let k = plan.instance_id.0;
    &&& new.bindings@ == insert_all(old.bindings@, plan.bindings)
    &&& new.definitions@ == old.definitions@
    &&& new.requirements@ == old.requirements@
    &&& new.capabilities@ == old.capabilities@
    &&& new.effects@ == old.effects@
    &&& new.contexts@ == old.contexts@
    &&& new.facet_schemas@ == old.facet_schemas@
    &&& new.facets@ == old.facets@
    &&& if old.instances@.contains_key(k) {
        let def = old.definitions@[old.instances@[k].definition_id.0];
        &&& new.instances@ == old.instances@.insert(k, ComponentInstance { resolution: ResolutionState::Active, ..old.instances@[k] })
        &&& new.runtimes@.dom() == old.runtimes@.dom().insert(k)
        &&& forall|q: u64| q != k && #[trigger] old.runtimes@.contains_key(q) ==> new.runtimes@[q] == old.runtimes@[q]
        &&& exists|policy: MailboxPolicy| declared_mailbox_policy(old, k, policy) && fresh_runtime(new.runtimes@[k], runtime_id, plan.instance_id, policy)
        &&& plannable(old, k) ==> rooms_materialized(old.rooms@, new.rooms@, def.routing.rooms@, runtime_id, plan.instance_id)
            && new.subscriptions@ == insert_all_sorted(old.subscriptions@, subscriptions_for(def.routing.subscriptions@, plan.instance_id))
        &&& !plannable(old, k) ==> new.rooms@ == old.rooms@ && new.subscriptions@ == old.subscriptions@
    } else {
        &&& new.instances@ == old.instances@
        &&& new.runtimes@ == old.runtimes@
        &&& new.rooms@ == old.rooms@
        &&& new.subscriptions@ == old.subscriptions@
    }
}

impl GraphState {
    /// Applies one successfully started activation to the inspectable graph.
    pub fn apply_activation(&mut self, plan: &ActivationPlan, runtime_id: ComponentRuntimeId)
        requires
            old(self).wf(),
        ensures
            final(self).wf(),
            activation_applied(*old(self), *final(self), plan@, runtime_id),
    {
        let ghost g0 = *self;
        let mut i: usize = 0;
        while i < plan.bindings.len()
            invariant
                self.wf(),
                i <= plan.bindings@.len(),
                self.bindings@ == insert_all(g0.bindings@, plan.bindings@.take(i as int)),
                self.definitions == g0.definitions,
                self.instances == g0.instances,
                self.requirements == g0.requirements,
                self.capabilities == g0.capabilities,
                self.runtimes == g0.runtimes,
                self.effects == g0.effects,
                self.contexts == g0.contexts,
                self.facet_schemas == g0.facet_schemas,
                self.facets == g0.facets,
                self.rooms == g0.rooms,
                self.subscriptions == g0.subscriptions,
            decreases plan.bindings@.len() - i,
        {
            self.bindings.upsert(plan.bindings[i]);
            proof {
                lemma_insert_all_take(g0.bindings@, plan.bindings@, i as int);
            }
            i += 1;
        }
        assert(plan.bindings@.take(plan.bindings@.len() as int) =~= plan.bindings@);
        let k = plan.instance_id.0;
        let mailbox_policy = match self.instances.get(k) {
            Some(instance) => match self.definitions.get(instance.definition_id.0) {
                Some(definition) => definition.routing.mailbox_policy,
                None => MailboxPolicy::default(),
            },
            None => MailboxPolicy::default(),
        };
        let ghost g1 = *self;
        match self.instances.get(k) {
            Some(instance) => {
                let mut activated = *instance;
                activated.activate();
                self.instances.upsert(activated);
                self.runtimes.upsert(ComponentRuntime::with_mailbox(runtime_id, plan.instance_id, mailbox_policy));
                let ghost g2 = *self;
                assert(crate::resolution::plannable(g2, k) == crate::resolution::plannable(g0, k));
                self.activate_routing(plan.instance_id, runtime_id);
                proof {
                    assert(self.instances@ =~= g0.instances@.insert(k, ComponentInstance { resolution: ResolutionState::Active, ..g0.instances@[k] }));
                    assert(self.runtimes@.dom() =~= g0.runtimes@.dom().insert(k));
                    assert(declared_mailbox_policy(g0, k, mailbox_policy));
                    assert(fresh_runtime(self.runtimes@[k], runtime_id, plan.instance_id, mailbox_policy));
                }
            },
            None => {},
        }
    }
}
} // verus!
