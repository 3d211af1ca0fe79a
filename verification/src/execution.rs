//! Dependency-aware execution plans and the replaceable Driver seam.
use vstd::prelude::*;
use crate::error::DriverError;
use crate::identity::{ComponentInstanceId, ComponentRuntimeId};
use crate::keyed::{Keyed, KeyedVec};
use crate::mailbox::{Delivery, DeliveryProgress, DeliveryView, delivery_views};

verus! {

impl Keyed for ComponentInstanceId {
    open spec fn spec_key(&self) -> u64 {
        self.0
    }

    fn key(&self) -> (k: u64) {
        self.0
    }
}

/// Mathematical content of one activation work item.
pub struct WorkView {
    pub instance: ComponentInstanceId,
    pub dependencies: Seq<ComponentInstanceId>,
}

/// One Component activation with explicit work dependencies.
#[derive(Debug, Clone, PartialEq, Eq)]
pub struct ExecutionWork {
    /// Component Instance activated by this work item.
    pub instance: ComponentInstanceId,
    /// Activations that must complete before this work can execute.
    pub dependencies: Vec<ComponentInstanceId>,
}

impl View for ExecutionWork {
    type V = WorkView;

    open spec fn view(&self) -> WorkView {
        WorkView { instance: self.instance, dependencies: self.dependencies@ }
    }
}

impl ExecutionWork {
    /// Creates one inspectable activation work item.
    pub fn new(instance: ComponentInstanceId, dependencies: Vec<ComponentInstanceId>) -> (r: Self)
        ensures
            r@ == (WorkView { instance, dependencies: dependencies@ }),
    {
        ExecutionWork { instance, dependencies }
    }

    /// Returns the Component Instance activated by this work.
    pub fn instance(&self) -> (r: ComponentInstanceId)
        ensures
            r == self.instance,
    {
        self.instance
    }

    /// Returns activations that must complete before this work executes.
    pub fn dependencies(&self) -> (r: &[ComponentInstanceId])
        ensures
            r@ == self.dependencies@,
    {
        self.dependencies.as_slice()
    }
}

/// Deterministic set of independent work that may execute concurrently.
#[derive(Debug, Clone, PartialEq, Eq)]
pub struct ExecutionFront {
    /// Independent activation work ordered by Component Instance identity.
    pub work: Vec<ExecutionWork>,
}

impl ExecutionFront {
    /// The views of the work items, in order.
    pub open spec fn work_views(&self) -> Seq<WorkView> {
        self.work@.map_values(|w: ExecutionWork| w@)
    }

    /// Creates one deterministic executable frontier.
    pub fn new(work: Vec<ExecutionWork>) -> (r: Self)
        ensures
            r.work@ == work@,
    {
        ExecutionFront { work }
    }

    /// Returns independent work in deterministic reference order.
    pub fn work(&self) -> (r: &[ExecutionWork])
        ensures
            r@ == self.work@,
    {
        self.work.as_slice()
    }
}

/// Ordered fronts containing only activation work affected by one Event.
#[derive(Debug, Clone, PartialEq, Eq)]
pub struct ExecutionPlan {
    /// Fronts ordered by their explicit dependency constraints.
    pub fronts: Vec<ExecutionFront>,
}

impl ExecutionPlan {
    /// Creates an ordered dependency plan from deterministic fronts.
    pub fn new(fronts: Vec<ExecutionFront>) -> (r: Self)
        ensures
            r.fronts@ == fronts@,
    {
        ExecutionPlan { fronts }
    }

    /// Returns ordered executable fronts.
    pub fn fronts(&self) -> (r: &[ExecutionFront])
        ensures
            r@ == self.fronts@,
    {
        self.fronts.as_slice()
    }
}

impl Default for ExecutionPlan {
    fn default() -> (r: Self)
        ensures
            r.fronts@.len() == 0,
    {
        ExecutionPlan { fronts: Vec::new() }
    }
}

/// Concrete Runtime identity assigned immediately before Driver startup.
#[derive(Debug, Clone, Copy, PartialEq, Eq, Structural)]
pub struct RuntimeStart {
    /// Component Instance whose execution resources are created.
    pub instance: ComponentInstanceId,
    /// Identity of the concrete Component Runtime lifecycle.
    pub runtime: ComponentRuntimeId,
}

impl RuntimeStart {
    /// Creates one concrete startup request for an execution front.
    pub fn new(instance: ComponentInstanceId, runtime: ComponentRuntimeId) -> (r: Self)
        ensures
            r.instance == instance,
            r.runtime == runtime,
    {
        RuntimeStart { instance, runtime }
    }

    /// Returns the Component Instance being started.
    pub fn instance(&self) -> (r: ComponentInstanceId)
        ensures
            r == self.instance,
    {
        self.instance
    }

    /// Returns the concrete Component Runtime identity being started.
    pub fn runtime(&self) -> (r: ComponentRuntimeId)
        ensures
            r == self.runtime,
    {
        self.runtime
    }
}

/// Observable result of advancing an execution strategy once.
#[derive(Debug, Clone, Copy, PartialEq, Eq, Structural)]
pub enum DriverProgress {
    /// No queued Runtime work was available.
    Idle,
    /// One queued Runtime was advanced.
    Advanced(ComponentInstanceId),
}

/// Common contract for starting, advancing, and stopping Component execution.
///
/// Implementations belong to the integrator; the Kernel states what holds of
/// every result they return.
pub trait EventLoopDriver: Sized {
    /// How this Driver answers `start`: its state before (`self`) and after,
    /// the identities it was handed, and its answer. A Driver may define it; the
    /// Kernel, generic over Drivers, relies on nothing more than the relation
    /// holding, and a Driver that keeps the default states nothing by it.
    open spec fn start_answer(&self, after: &Self, instance_id: ComponentInstanceId, runtime_id: ComponentRuntimeId, r: Result<(), DriverError>) -> bool {
        true
    }

    /// How this Driver answers `process_delivery` for one Delivery; the default states nothing.
    open spec fn delivery_answer(&self, after: &Self, delivery: DeliveryView, r: Result<DeliveryProgress, DriverError>) -> bool {
        true
    }

    /// How this Driver answers `process_delivery_front` for a frontier; the default states nothing.
    open spec fn front_answer(&self, after: &Self, deliveries: Seq<DeliveryView>, r: Result<Seq<DeliveryProgress>, DriverError>) -> bool {
        true
    }

    /// How this Driver answers `stop`; the default states nothing.
    open spec fn stop_answer(&self, after: &Self, instance_id: ComponentInstanceId, r: Result<(), DriverError>) -> bool {
        true
    }

    /// Starts one dependency-free frontier; the default preserves slice order.
    fn start_front(&mut self, starts: &[RuntimeStart]) -> (r: Result<(), DriverError>)
        default_ensures
            starts@.len() == 0 ==> r is Ok,
    {
        let mut i: usize = 0;
        while i < starts.len()
            invariant
                i <= starts@.len(),
            decreases starts@.len() - i,
        {
            let start = starts[i];
            match self.start(start.instance, start.runtime) {
                Err(e) => {
                    return Err(e);
                },
                Ok(()) => {},
            }
            i += 1;
        }
        Ok(())
    }

    /// Starts one concrete Component Runtime lifecycle.
    fn start(&mut self, instance_id: ComponentInstanceId, runtime_id: ComponentRuntimeId) -> (r: Result<(), DriverError>)
        ensures
            old(self).start_answer(&*final(self), instance_id, runtime_id, r),
    ;

    /// Advances at most one queued Component Runtime.
    fn advance(&mut self) -> (r: Result<DriverProgress, DriverError>);

    /// Processes one accepted Delivery; the default leaves processing unobserved.
    fn process_delivery(&mut self, delivery: &Delivery) -> (r: Result<DeliveryProgress, DriverError>)
        ensures
            old(self).delivery_answer(&*final(self), delivery@, r)
                || (r == Ok::<DeliveryProgress, DriverError>(DeliveryProgress::Unobserved) && *final(self) == *old(self)),
        default_ensures
            r == Ok::<DeliveryProgress, DriverError>(DeliveryProgress::Unobserved),
            *final(self) == *old(self),
    {
        Ok(DeliveryProgress::Unobserved)
    }

    /// Processes one dependency-free Delivery frontier; the default preserves slice order.
    fn process_delivery_front(&mut self, deliveries: &[Delivery]) -> (r: Result<Vec<DeliveryProgress>, DriverError>)
        ensures
            old(self).front_answer(&*final(self), delivery_views(deliveries@), results_view(r))
                || deliveries_chain(*old(self), *final(self), delivery_views(deliveries@), results_view(r),
                    |a: Self, b: Self, d: DeliveryView, x: Result<DeliveryProgress, DriverError>| a.delivery_answer(&b, d, x)
                        || (x == Ok::<DeliveryProgress, DriverError>(DeliveryProgress::Unobserved) && b == a)),
        default_ensures
            r matches Ok(v) ==> v@.len() == deliveries@.len(),
            deliveries@.len() == 0 ==> r is Ok,
            deliveries_chain(*old(self), *final(self), delivery_views(deliveries@), results_view(r),
                |a: Self, b: Self, d: DeliveryView, x: Result<DeliveryProgress, DriverError>| a.delivery_answer(&b, d, x)
                    || (x == Ok::<DeliveryProgress, DriverError>(DeliveryProgress::Unobserved) && b == a)),
    {
        let ghost d0 = *self;
        let ghost ds = delivery_views(deliveries@);
        let ghost step = |a: Self, b: Self, d: DeliveryView, x: Result<DeliveryProgress, DriverError>| a.delivery_answer(&b, d, x)
            || (x == Ok::<DeliveryProgress, DriverError>(DeliveryProgress::Unobserved) && b == a);
        let ghost mut states: Seq<Self> = seq![d0];
        let ghost mut answers: Seq<Result<DeliveryProgress, DriverError>> = Seq::empty();
        let mut out: Vec<DeliveryProgress> = Vec::new();
        let mut i: usize = 0;
        while i < deliveries.len()
            invariant
                i <= deliveries@.len(),
                out@.len() == i,
                ds == delivery_views(deliveries@),
                states.len() == i + 1,
                answers.len() == i,
                states[0] == d0,
                d0 == *old(self),
                states[i as int] == *self,
                step == (|a: Self, b: Self, d: DeliveryView, x: Result<DeliveryProgress, DriverError>| a.delivery_answer(&b, d, x)
                    || (x == Ok::<DeliveryProgress, DriverError>(DeliveryProgress::Unobserved) && b == a)),
                forall|j: int| 0 <= j < i ==> step(states[j], states[j + 1], ds[j], #[trigger] answers[j]),
                forall|j: int| 0 <= j < i ==> #[trigger] answers[j] == Ok::<DeliveryProgress, DriverError>(out@[j]),
            decreases deliveries@.len() - i,
        {
            let ghost before = *self;
            let answer = self.process_delivery(&deliveries[i]);
            proof {
                let old_states = states;
                let old_answers = answers;
                states = states.push(*self);
                answers = answers.push(answer);
                assert(ds[i as int] == deliveries@[i as int]@);
                assert forall|j: int| 0 <= j < i + 1 implies step(states[j], states[j + 1], ds[j], #[trigger] answers[j]) by {
                    if j < i {
                        assert(old_states[j] == states[j] && old_states[j + 1] == states[j + 1] && old_answers[j] == answers[j]);
                    }
                }
            }
            match answer {
                Err(e) => {
                    proof {
                        assert(answers.last() == Err::<DeliveryProgress, DriverError>(e));
                        assert(states.last() == *self);
                        assert(deliveries_chain(d0, *self, ds, Err::<Seq<DeliveryProgress>, DriverError>(e), step));
                    }
                    let r: Result<Vec<DeliveryProgress>, DriverError> = Err(e);
                    assert(results_view(r) == Err::<Seq<DeliveryProgress>, DriverError>(e));
                    return r;
                },
                Ok(p) => {
                    out.push(p);
                },
            }
            i += 1;
        }
        proof {
            assert(states.last() == *self);
            assert(deliveries_chain(d0, *self, ds, Ok::<Seq<DeliveryProgress>, DriverError>(out@), step));
        }
        Ok(out)
    }

    /// Stops one Component Runtime and releases Driver-owned execution state.
    fn stop(&mut self, instance_id: ComponentInstanceId) -> (r: Result<(), DriverError>)
        ensures
            old(self).stop_answer(&*final(self), instance_id, r),
    ;
}

/// The value of a frontier answer.
pub open spec fn results_view(r: Result<Vec<DeliveryProgress>, DriverError>) -> Result<Seq<DeliveryProgress>, DriverError> {
    match r {
        Ok(v) => Ok(v@),
        Err(e) => Err(e),
    }
}

/// A call per Delivery of `ds` in order, each related by `step` from one Driver
/// state to the next, from `d0` to `d1`, until the first error, which is the
/// answer; otherwise the answer lists each call's result.
pub open spec fn deliveries_chain<D>(
    d0: D,
    d1: D,
    ds: Seq<DeliveryView>,
    r: Result<Seq<DeliveryProgress>, DriverError>,
    step: spec_fn(D, D, DeliveryView, Result<DeliveryProgress, DriverError>) -> bool,
) -> bool {
    exists|states: Seq<D>, answers: Seq<Result<DeliveryProgress, DriverError>>| {
        &&& states.len() == answers.len() + 1
        &&& answers.len() <= ds.len()
        &&& states[0] == d0
        &&& states.last() == d1
        &&& forall|i: int| 0 <= i < answers.len() ==> step(states[i], states[i + 1], ds[i], #[trigger] answers[i])
        &&& match r {
            Ok(v) => answers.len() == ds.len() && v.len() == ds.len()
                && forall|i: int| 0 <= i < answers.len() ==> #[trigger] answers[i] == Ok::<DeliveryProgress, DriverError>(v[i]),
            Err(e) => answers.len() > 0 && answers.last() == Err::<DeliveryProgress, DriverError>(e)
                && forall|i: int| 0 <= i < answers.len() - 1 ==> (#[trigger] answers[i]) is Ok,
        }
    }
}

/// One `process_delivery` call answered as the default one does: `Unobserved`,
/// with the Driver left as it was.
pub open spec fn unobserved_step<D>() -> spec_fn(D, D, DeliveryView, Result<DeliveryProgress, DriverError>) -> bool {
    |a: D, b: D, d: DeliveryView, x: Result<DeliveryProgress, DriverError>| x == Ok::<DeliveryProgress, DriverError>(DeliveryProgress::Unobserved) && b == a
}

/// States that each equal the one before all equal the first.
proof fn lemma_constant_states<D>(states: Seq<D>, n: int)
    requires
        0 <= n < states.len(),
        forall|i: int| 0 <= i < n ==> #[trigger] states[i + 1] == states[i],
    ensures
        states[n] == states[0],
    decreases n,
{
    if n > 0 {
        lemma_constant_states(states, n - 1);
        assert(states[(n - 1) + 1] == states[n - 1]);
    }
}

/// When every per-Delivery call answers as the default `process_delivery` does,
/// a frontier handled one call per Delivery in order answers `Unobserved` for
/// each Delivery and leaves the Driver as it was.
pub proof fn law_default_front_unobserved<D>(d0: D, d1: D, ds: Seq<DeliveryView>, r: Result<Seq<DeliveryProgress>, DriverError>)
    requires
        deliveries_chain(d0, d1, ds, r, unobserved_step::<D>()),
    ensures
        r == Ok::<Seq<DeliveryProgress>, DriverError>(Seq::new(ds.len(), |i: int| DeliveryProgress::Unobserved)),
        d1 == d0,
{
    let step = unobserved_step::<D>();
    let (states, answers) = choose|states: Seq<D>, answers: Seq<Result<DeliveryProgress, DriverError>>| {
        &&& states.len() == answers.len() + 1
        &&& answers.len() <= ds.len()
        &&& states[0] == d0
        &&& states.last() == d1
        &&& forall|i: int| 0 <= i < answers.len() ==> step(states[i], states[i + 1], ds[i], #[trigger] answers[i])
        &&& match r {
            Ok(v) => answers.len() == ds.len() && v.len() == ds.len()
                && forall|i: int| 0 <= i < answers.len() ==> #[trigger] answers[i] == Ok::<DeliveryProgress, DriverError>(v[i]),
            Err(e) => answers.len() > 0 && answers.last() == Err::<DeliveryProgress, DriverError>(e)
                && forall|i: int| 0 <= i < answers.len() - 1 ==> (#[trigger] answers[i]) is Ok,
        }
    };
    assert forall|i: int| 0 <= i < answers.len() implies #[trigger] states[i + 1] == states[i]
        && answers[i] == Ok::<DeliveryProgress, DriverError>(DeliveryProgress::Unobserved) by {
        assert(step(states[i], states[i + 1], ds[i], answers[i]));
    }
    lemma_constant_states(states, answers.len() as int);
    match r {
        Ok(v) => {
            assert forall|i: int| 0 <= i < ds.len() implies v[i] == DeliveryProgress::Unobserved by {
                assert(answers[i] == Ok::<DeliveryProgress, DriverError>(v[i]));
            }
            assert(v =~= Seq::new(ds.len(), |i: int| DeliveryProgress::Unobserved));
        },
        Err(e) => {
            assert(answers[answers.len() - 1] == Err::<DeliveryProgress, DriverError>(e));
        },
    }
}

/// `process_delivery` was called on the Deliveries `ds` in order, from Driver state
/// `d0` to `d1`, each call answering by the Driver's own relation or, leaving the
/// Driver as it was, with `Unobserved`; the first error is the answer, otherwise
/// the answer lists each call's result.
pub open spec fn deliveries_answered<D: EventLoopDriver>(d0: D, d1: D, ds: Seq<DeliveryView>, r: Result<Seq<DeliveryProgress>, DriverError>) -> bool {
    deliveries_chain(d0, d1, ds, r, |a: D, b: D, d: DeliveryView, x: Result<DeliveryProgress, DriverError>| a.delivery_answer(&b, d, x)
        || (x == Ok::<DeliveryProgress, DriverError>(DeliveryProgress::Unobserved) && b == a))
}

/// The Driver, handed the frontier `ds`, answered `r`: by its own relation, or by
/// one `process_delivery` call per Delivery in order.
pub open spec fn front_answered<D: EventLoopDriver>(d0: D, d1: D, ds: Seq<DeliveryView>, r: Result<Seq<DeliveryProgress>, DriverError>) -> bool {
    d0.front_answer(&d1, ds, r) || deliveries_answered(d0, d1, ds, r)
}

/// Deterministic reference Driver that advances queued Instances one at a time.
#[derive(Debug)]
pub struct SequentialExecutor {
    /// Instances with live Driver-owned execution state.
    active: KeyedVec<ComponentInstanceId>,
    /// FIFO frontier of Instances ready for one advancement.
    ready: Vec<ComponentInstanceId>,
}

impl SequentialExecutor {
    #[verifier::type_invariant]
    spec fn ordered(&self) -> bool {
        self.active.wf()
    }

    /// Instances with live execution state, by identity.
    pub closed spec fn started(&self) -> Map<u64, ComponentInstanceId> {
        self.active@
    }

    /// Instances waiting for one advancement, oldest first.
    pub closed spec fn queue(&self) -> Seq<ComponentInstanceId> {
        self.ready@
    }

    /// Creates an executor with no started Instance.
    pub fn new() -> (r: Self)
        ensures
            r.started() == Map::<u64, ComponentInstanceId>::empty(),
            r.queue().len() == 0,
    {
        SequentialExecutor { active: KeyedVec::new(), ready: Vec::new() }
    }
}

impl Default for SequentialExecutor {
    fn default() -> (r: Self)
        ensures
            r.started() == Map::<u64, ComponentInstanceId>::empty(),
            r.queue().len() == 0,
    {
        SequentialExecutor::new()
    }
}

impl EventLoopDriver for SequentialExecutor {
    /// Stopping always succeeds, forgets the Instance and drops it from the ready frontier.
    open spec fn stop_answer(&self, after: &Self, instance_id: ComponentInstanceId, r: Result<(), DriverError>) -> bool {
        r is Ok && after.started() == self.started().remove(instance_id.0)
            && after.queue() == self.queue().filter(|q: ComponentInstanceId| q != instance_id)
    }

    /// An Instance not yet started is started and queued; starting it again is refused and changes nothing.
    open spec fn start_answer(&self, after: &Self, instance_id: ComponentInstanceId, runtime_id: ComponentRuntimeId, r: Result<(), DriverError>) -> bool {
        if self.started().contains_key(instance_id.0) {
            r is Err && after.started() == self.started() && after.queue() == self.queue()
        } else {
            r is Ok && after.started() == self.started().insert(instance_id.0, instance_id) && after.queue() == self.queue().push(instance_id)
        }
    }

    /// Starts one Instance unless it is already started.
    fn start(&mut self, instance_id: ComponentInstanceId, runtime_id: ComponentRuntimeId) -> (r: Result<(), DriverError>)
        ensures
            old(self).started().contains_key(instance_id.0) ==> r is Err && final(self).started() == old(self).started()
                && final(self).queue() == old(self).queue(),
            !old(self).started().contains_key(instance_id.0) ==> r is Ok
                && final(self).started() == old(self).started().insert(instance_id.0, instance_id)
                && final(self).queue() == old(self).queue().push(instance_id),
    {
        proof {
            use_type_invariant(&*self);
        }
        let ghost before = *self;
        if self.active.contains_key(instance_id.0) {
            let r = Err(DriverError::new("Component Instance is already started".to_owned()));
            assert(before.start_answer(&*self, instance_id, runtime_id, r));
            return r;
        }
        let mut active = KeyedVec::new();
        std::mem::swap(&mut active, &mut self.active);
        active.insert(instance_id);
        self.active = active;
        let mut ready = Vec::new();
        std::mem::swap(&mut ready, &mut self.ready);
        ready.push(instance_id);
        self.ready = ready;
        assert(self.ready@ == before.ready@.push(instance_id));
        assert(before.start_answer(&*self, instance_id, runtime_id, Ok(())));
        Ok(())
    }

    /// Advances the oldest queued Instance, if any.
    fn advance(&mut self) -> (r: Result<DriverProgress, DriverError>)
        ensures
            final(self).started() == old(self).started(),
            old(self).queue().len() == 0 ==> r == Ok::<DriverProgress, DriverError>(DriverProgress::Idle)
                && final(self).queue() == old(self).queue(),
            old(self).queue().len() > 0 ==> r == Ok::<DriverProgress, DriverError>(DriverProgress::Advanced(old(self).queue()[0]))
                && final(self).queue() == old(self).queue().drop_first(),
    {
        proof {
            use_type_invariant(&*self);
        }
        if self.ready.len() == 0 {
            Ok(DriverProgress::Idle)
        } else {
            let mut ready = Vec::new();
            std::mem::swap(&mut ready, &mut self.ready);
            let first = ready.remove(0);
            self.ready = ready;
            assert(self.ready@ =~= old(self).ready@.drop_first());
            Ok(DriverProgress::Advanced(first))
        }
    }

    /// Releases one Instance and removes it from the ready frontier.
    fn stop(&mut self, instance_id: ComponentInstanceId) -> (r: Result<(), DriverError>)
        ensures
            r is Ok,
            final(self).started() == old(self).started().remove(instance_id.0),
            final(self).queue() == old(self).queue().filter(|q: ComponentInstanceId| q != instance_id),
    {
        proof {
            use_type_invariant(&*self);
        }
        let mut active = KeyedVec::new();
        std::mem::swap(&mut active, &mut self.active);
        active.remove(instance_id.0);
        self.active = active;
        let ghost s = self.ready@;
        let mut kept: Vec<ComponentInstanceId> = Vec::new();
        let mut i: usize = 0;
        while i < self.ready.len()
            invariant
                self.ready@ == s,
                i <= s.len(),
                kept@ == s.take(i as int).filter(|q: ComponentInstanceId| q != instance_id),
            decreases s.len() - i,
        {
            let q = self.ready[i];
            proof {
                assert(s.take(i as int + 1) =~= s.take(i as int).push(q));
                s.take(i as int).lemma_filter_push(q, |q: ComponentInstanceId| q != instance_id);
            }
            if q != instance_id {
                kept.push(q);
            }
            i += 1;
        }
        assert(s.take(s.len() as int) =~= s);
        self.ready = kept;
        Ok(())
    }
}

} // verus!
