//! Room acceptance and distribution of send, emit and broadcast operations.
use vstd::prelude::*;
use crate::declaration::{ComponentDefinition, EmissionDeclaration, Event, EventView};
use crate::delivery::{front_delivered, front_delivered_by, lemma_front_delivered_keeps_ids, mailboxes_bounded, receipts_view, runtime_ids_kept};
use crate::error::{DriverError, KernelError};
use crate::execution::EventLoopDriver;
use crate::graph::GraphState;
use crate::identity::{ComponentInstanceId, EventTypeId, RoomAddress, RoomSequence};
use crate::keyed::Keyed;
use crate::mailbox::{
    BroadcastReceipt, ComponentRuntime, Delivery, DeliveryOrigin, DeliveryProgress, DeliveryReceipt,
    DeliveryView, Room, RoomView, SendReceipt, Subscription, accept_step, delivery_views,
};

verus! {

/// The Definition of a living Instance, when both exist.
pub open spec fn definition_of(g: GraphState, k: u64) -> Option<ComponentDefinition> {
    if g.instances@.contains_key(k) && g.definitions@.contains_key(g.instances@[k].definition_id.0) {
        Some(g.definitions@[g.instances@[k].definition_id.0])
    } else {
        None
    }
}

/// The Rooms a source routes one Event type to, in declaration order, or why it cannot emit it.
pub open spec fn emission_targets(g: GraphState, source: ComponentInstanceId, event_type: EventTypeId) -> Result<Seq<RoomAddress>, KernelError> {
    match definition_of(g, source.0) {
        None => Err(KernelError::InactiveEventSource(source)),
        Some(def) => {
            let rooms = def.routing.emissions@.filter(|e: EmissionDeclaration| e.event_type == event_type)
                .map_values(|e: EmissionDeclaration| e.room);
            if rooms.len() == 0 {
                Err(KernelError::UndeclaredEmission { emitter: source, event_type })
            } else {
                Ok(rooms)
            }
        },
    }
}

/// The Definition of Instance `k` listens to broadcasts of `event_type`.
pub open spec fn listens(g: GraphState, k: u64, event_type: EventTypeId) -> bool {
    definition_of(g, k) matches Some(def) && exists|j: int| 0 <= j < def.routing.broadcast_subscriptions@.len()
        && #[trigger] def.routing.broadcast_subscriptions@[j].event_type == event_type
}

/// Active broadcast listeners of `event_type`, in Instance order.
pub open spec fn broadcast_listeners(g: GraphState, event_type: EventTypeId) -> Seq<ComponentInstanceId> {
    g.runtimes.seq().filter(|rt: ComponentRuntime| listens(g, rt.instance_id.0, event_type))
        .map_values(|rt: ComponentRuntime| rt.instance_id)
}

/// Mathematical content of one Room distribution batch.
pub struct BatchView {
    pub address: RoomAddress,
    pub sequence: RoomSequence,
    pub deliveries: Seq<DeliveryView>,
}

/// Accepted work from one concrete Room before Mailbox distribution.
#[derive(Debug)]
pub struct RoomBatch {
    /// Logical Room that accepted this Event.
    pub address: RoomAddress,
    /// FIFO position local to the concrete Room lifecycle.
    pub sequence: RoomSequence,
    /// Independent subscriber Deliveries produced by this step.
    pub deliveries: Vec<Delivery>,
}

impl View for RoomBatch {
    type V = BatchView;

    open spec fn view(&self) -> BatchView {
        BatchView { address: self.address, sequence: self.sequence, deliveries: delivery_views(self.deliveries@) }
    }
}

/// The views of a sequence of batches.
pub open spec fn batch_views(bs: Seq<RoomBatch>) -> Seq<BatchView> {
    bs.map_values(|b: RoomBatch| b@)
}

/// All Deliveries of a sequence of batches, batch after batch.
pub open spec fn flat_batches(bs: Seq<BatchView>) -> Seq<DeliveryView>
    decreases bs.len(),
{
    if bs.len() == 0 {
        Seq::empty()
    } else {
        flat_batches(bs.drop_last()) + bs.last().deliveries
    }
}

/// The observable content of a Send Receipt.
pub open spec fn send_view(r: SendReceipt) -> (RoomAddress, RoomSequence, Seq<DeliveryReceipt>) {
    (r.room, r.sequence, r.deliveries@)
}

/// Splits the receipts of a flattened frontier back into one Send Receipt per batch.
pub open spec fn split_batches(bs: Seq<BatchView>, rs: Seq<DeliveryReceipt>) -> Seq<(RoomAddress, RoomSequence, Seq<DeliveryReceipt>)> {
    Seq::new(bs.len(), |i: int| (bs[i].address, bs[i].sequence,
        rs.subrange(flat_batches(bs.take(i)).len() as int, flat_batches(bs.take(i + 1)).len() as int)))
}

/// The Send Receipts answered for batches `bs` once their frontier ended with `front`.
pub open spec fn batches_routed(bs: Seq<BatchView>, front: Result<Seq<DeliveryReceipt>, KernelError>, r: Result<Vec<SendReceipt>, KernelError>) -> bool {
    match front {
        Err(e) => r == Err::<Vec<SendReceipt>, KernelError>(e),
        Ok(rs) => r matches Ok(v) && v@.map_values(|x: SendReceipt| send_view(x)) == split_batches(bs, rs),
    }
}

/// Some Driver answer makes the frontier of batches `bs` end in `new` with the Send Receipts `r`.
pub open spec fn batches_delivered(old: GraphState, new: GraphState, bs: Seq<BatchView>, r: Result<Vec<SendReceipt>, KernelError>) -> bool {
    exists|progress: Result<Seq<DeliveryProgress>, DriverError>, front: Result<Seq<DeliveryReceipt>, KernelError>|
        front_delivered(old, new, flat_batches(bs), progress, front) && batches_routed(bs, front, r)
}

/// Some Driver answer makes the single batch of a send end in `new` with the Send Receipt `r`.
pub open spec fn batch_sent(old: GraphState, new: GraphState, bs: Seq<BatchView>, r: Result<SendReceipt, KernelError>) -> bool {
    exists|progress: Result<Seq<DeliveryProgress>, DriverError>, front: Result<Seq<DeliveryReceipt>, KernelError>|
        front_delivered(old, new, flat_batches(bs), progress, front) && match front {
            Err(e) => r == Err::<SendReceipt, KernelError>(e),
            Ok(rs) => r matches Ok(x) && send_view(x) == split_batches(bs, rs)[0],
        }
}

/// The broadcast Deliveries of one Event: one per listener, in listener order.
pub open spec fn broadcast_deliveries(listeners: Seq<ComponentInstanceId>, event: EventView) -> Seq<DeliveryView> {
    listeners.map_values(|k: ComponentInstanceId| DeliveryView { origin: DeliveryOrigin::Broadcast, recipient: k, event })
}

/// Some Driver answer makes a broadcast frontier end in `new` with the Broadcast Receipt `r`.
pub open spec fn broadcast_delivered(old: GraphState, new: GraphState, ds: Seq<DeliveryView>, r: Result<BroadcastReceipt, KernelError>) -> bool {
    exists|progress: Result<Seq<DeliveryProgress>, DriverError>, front: Result<Seq<DeliveryReceipt>, KernelError>|
        front_delivered(old, new, ds, progress, front) && match front {
            Err(e) => r == Err::<BroadcastReceipt, KernelError>(e),
            Ok(rs) => r matches Ok(b) && b.deliveries@ == rs,
        }
}

/// `batches_delivered`, with the Driver going from `d0` to `d1` and handed exactly the accepted Deliveries of the batches, in order.
pub open spec fn batches_delivered_by<D: EventLoopDriver>(old: GraphState, new: GraphState, d0: D, d1: D, bs: Seq<BatchView>, r: Result<Vec<SendReceipt>, KernelError>) -> bool {
    exists|progress: Result<Seq<DeliveryProgress>, DriverError>, front: Result<Seq<DeliveryReceipt>, KernelError>|
        #[trigger] front_delivered_by(old, new, d0, d1, flat_batches(bs), progress, front) && batches_routed(bs, front, r)
}

/// `batch_sent`, with the Driver going from `d0` to `d1` and handed exactly the accepted Deliveries, in order.
pub open spec fn batch_sent_by<D: EventLoopDriver>(old: GraphState, new: GraphState, d0: D, d1: D, bs: Seq<BatchView>, r: Result<SendReceipt, KernelError>) -> bool {
    exists|progress: Result<Seq<DeliveryProgress>, DriverError>, front: Result<Seq<DeliveryReceipt>, KernelError>|
        #[trigger] front_delivered_by(old, new, d0, d1, flat_batches(bs), progress, front) && match front {
            Err(e) => r == Err::<SendReceipt, KernelError>(e),
            Ok(rs) => r matches Ok(x) && send_view(x) == split_batches(bs, rs)[0],
        }
}

/// `broadcast_delivered`, with the Driver going from `d0` to `d1` and handed exactly the accepted Deliveries, in order.
pub open spec fn broadcast_delivered_by<D: EventLoopDriver>(old: GraphState, new: GraphState, d0: D, d1: D, ds: Seq<DeliveryView>, r: Result<BroadcastReceipt, KernelError>) -> bool {
    exists|progress: Result<Seq<DeliveryProgress>, DriverError>, front: Result<Seq<DeliveryReceipt>, KernelError>|
        #[trigger] front_delivered_by(old, new, d0, d1, ds, progress, front) && match front {
            Err(e) => r == Err::<BroadcastReceipt, KernelError>(e),
            Ok(rs) => r matches Ok(b) && b.deliveries@ == rs,
        }
}

/// The routes of an emission: the same Event to every target Room.
pub open spec fn emission_routes(rooms: Seq<RoomAddress>, event: EventView) -> Seq<(RoomAddress, EventView)> {
    rooms.map_values(|a: RoomAddress| (a, event))
}

/// A prefix of the batches contributes a prefix of the Deliveries.
pub proof fn lemma_flat_prefix(bs: Seq<BatchView>, i: int)
    requires
        0 <= i <= bs.len(),
    ensures
        flat_batches(bs.take(i)).len() <= flat_batches(bs).len(),
        i < bs.len() ==> flat_batches(bs.take(i + 1)).len() == flat_batches(bs.take(i)).len() + bs[i].deliveries.len(),
    decreases bs.len(),
{
    if i < bs.len() {
        assert(bs.take(i + 1).drop_last() =~= bs.take(i));
    }
    if bs.len() > 0 {
        if i == bs.len() {
            assert(bs.take(i) =~= bs);
        } else {
            let t = bs.drop_last();
            assert(t.take(i) =~= bs.take(i));
            lemma_flat_prefix(t, i);
        }
    } else {
        assert(bs.take(i) =~= bs);
    }
}

/// One accepted Room distribution step.
pub struct RoomStep {
    pub address: RoomAddress,
    pub sequence: RoomSequence,
    pub event: EventView,
}

/// The views of the concrete Rooms, by address.
pub open spec fn room_views(rooms: Map<u64, Room>) -> Map<u64, RoomView> {
    rooms.map_values(|r: Room| r@)
}

/// The views of routed Events.
pub open spec fn route_views(routes: Seq<(RoomAddress, Event)>) -> Seq<(RoomAddress, EventView)> {
    routes.map_values(|x: (RoomAddress, Event)| (x.0, x.1@))
}

/// Accepts the routes in order; the first failure stops acceptance and is reported.
pub open spec fn accept_routes(rooms: Map<u64, RoomView>, routes: Seq<(RoomAddress, EventView)>) -> (Map<u64, RoomView>, Result<Seq<RoomStep>, KernelError>)
    decreases routes.len(),
{
    if routes.len() == 0 {
        (rooms, Ok(Seq::empty()))
    } else {
        let (m, acc) = accept_routes(rooms, routes.drop_last());
        match acc {
            Err(e) => (m, Err(e)),
            Ok(steps) => {
                let a = routes.last().0;
                if !m.contains_key(a.0) {
                    (m, Err(KernelError::UnavailableRoom(a)))
                } else {
                    let (room, out) = accept_step(m[a.0], routes.last().1);
                    match out {
                        Err(e) => (m, Err(e)),
                        Ok(accepted) => (m.insert(a.0, room), Ok(steps.push(RoomStep { address: a, sequence: accepted.0, event: accepted.1 }))),
                    }
                }
            },
        }
    }
}

/// The Deliveries of one accepted step: one per Subscription of its Room, in Subscription order.
pub open spec fn step_batch(subs: Seq<Subscription>, st: RoomStep) -> BatchView {
    BatchView {
        address: st.address,
        sequence: st.sequence,
        deliveries: subs.filter(|x: Subscription| x.room == st.address).map_values(|x: Subscription| DeliveryView {
            origin: DeliveryOrigin::Room { address: st.address, sequence: st.sequence },
            recipient: x.subscriber,
            event: st.event,
        }),
    }
}

/// The batches of accepted steps.
pub open spec fn steps_batches(subs: Seq<Subscription>, steps: Seq<RoomStep>) -> Seq<BatchView> {
    steps.map_values(|st: RoomStep| step_batch(subs, st))
}

/// Once acceptance fails, later routes change nothing.
pub proof fn lemma_accept_routes_stops(rooms: Map<u64, RoomView>, routes: Seq<(RoomAddress, EventView)>, n: int, m: int)
    requires
        0 <= n <= m <= routes.len(),
        accept_routes(rooms, routes.take(n)).1 is Err,
    ensures
        accept_routes(rooms, routes.take(m)) == accept_routes(rooms, routes.take(n)),
    decreases m - n,
{
    if m > n {
        lemma_accept_routes_stops(rooms, routes, n, m - 1);
        assert(routes.take(m).drop_last() =~= routes.take(m - 1));
    }
}

/// The frontier of a distribution: the Deliveries of the batches, batch after batch.
fn batch_deliveries(batches: &Vec<RoomBatch>) -> (r: Vec<Delivery>)
    ensures
        delivery_views(r@) == flat_batches(batch_views(batches@)),
{
    let ghost bs = batch_views(batches@);
    let mut deliveries: Vec<Delivery> = Vec::new();
    let mut i: usize = 0;
    while i < batches.len()
        invariant
            bs == batch_views(batches@),
            i <= batches@.len(),
            delivery_views(deliveries@) == flat_batches(bs.take(i as int)),
        decreases batches@.len() - i,
    {
        let batch = &batches[i];
        let ghost before = delivery_views(deliveries@);
        let mut j: usize = 0;
        while j < batch.deliveries.len()
            invariant
                j <= batch.deliveries@.len(),
                delivery_views(deliveries@) == before + delivery_views(batch.deliveries@).take(j as int),
            decreases batch.deliveries@.len() - j,
        {
            let ghost prev = delivery_views(deliveries@);
            deliveries.push(batch.deliveries[j].clone());
            proof {
                assert(delivery_views(deliveries@) =~= prev.push(batch.deliveries@[j as int]@));
                assert(delivery_views(batch.deliveries@).take(j as int + 1) =~= delivery_views(batch.deliveries@).take(j as int).push(batch.deliveries@[j as int]@));
                assert(delivery_views(deliveries@) =~= before + delivery_views(batch.deliveries@).take(j as int + 1));
            }
            j += 1;
        }
        proof {
            assert(delivery_views(batch.deliveries@).take(j as int) =~= bs[i as int].deliveries);
            assert(bs.take(i as int + 1).drop_last() =~= bs.take(i as int));
        }
        i += 1;
    }
    proof {
        assert(bs.take(batches@.len() as int) =~= bs);
    }
    deliveries
}

impl GraphState {
    /// Resolves typed emit routes without granting access to undeclared Rooms.
    pub fn emission_rooms(&self, source: ComponentInstanceId, event_type: EventTypeId) -> (r: Result<Vec<RoomAddress>, KernelError>)
        requires
            self.wf(),
        ensures
            match emission_targets(*self, source, event_type) {
                Ok(rooms) => r matches Ok(v) && v@ == rooms,
                Err(e) => r == Err::<Vec<RoomAddress>, KernelError>(e),
            },
    {
        let definition = match self.instances.get(source.0) {
            Some(instance) => match self.definitions.get(instance.definition_id.0) {
                Some(definition) => definition,
                None => {
                    return Err(KernelError::InactiveEventSource(source));
                },
            },
            None => {
                return Err(KernelError::InactiveEventSource(source));
            },
        };
        let ghost s = definition.routing.emissions@;
        let ghost p = |e: EmissionDeclaration| e.event_type == event_type;
        let ghost f = |e: EmissionDeclaration| e.room;
        let mut rooms: Vec<RoomAddress> = Vec::new();
        let mut i: usize = 0;
        while i < definition.routing.emissions.len()
            invariant
                s == definition.routing.emissions@,
                p == (|e: EmissionDeclaration| e.event_type == event_type),
                f == (|e: EmissionDeclaration| e.room),
                i <= s.len(),
                rooms@ == s.take(i as int).filter(p).map_values(f),
            decreases s.len() - i,
        {
            let emission = definition.routing.emissions[i];
            proof {
                assert(s.take(i as int + 1) =~= s.take(i as int).push(emission));
                s.take(i as int).lemma_filter_push(emission, p);
            }
            if emission.event_type == event_type {
                rooms.push(emission.room);
                proof {
                    let old_f = s.take(i as int).filter(p);
                    assert(old_f.push(emission).map_values(f) =~= old_f.map_values(f).push(f(emission)));
                }
            }
            i += 1;
        }
        assert(s.take(s.len() as int) =~= s);
        if rooms.len() == 0 {
            Err(KernelError::UndeclaredEmission { emitter: source, event_type })
        } else {
            Ok(rooms)
        }
    }

    /// Reports whether Instance `k` listens to broadcasts of `event_type`.
    pub fn is_listener(&self, k: u64, event_type: EventTypeId) -> (r: bool)
        requires
            self.wf(),
        ensures
            r == listens(*self, k, event_type),
    {
        match self.instances.get(k) {
            Some(instance) => match self.definitions.get(instance.definition_id.0) {
                Some(definition) => {
                    let mut i: usize = 0;
                    while i < definition.routing.broadcast_subscriptions.len()
                        invariant
                            self.instances@.contains_key(k),
                            self.definitions@.contains_key(self.instances@[k].definition_id.0),
                            *definition == self.definitions@[self.instances@[k].definition_id.0],
                            i <= definition.routing.broadcast_subscriptions@.len(),
                            forall|j: int| 0 <= j < i ==> #[trigger] definition.routing.broadcast_subscriptions@[j].event_type != event_type,
                        decreases definition.routing.broadcast_subscriptions@.len() - i,
                    {
                        if definition.routing.broadcast_subscriptions[i].event_type == event_type {
                            assert(definition_of(*self, k) == Some(*definition));
                            assert(definition.routing.broadcast_subscriptions@[i as int].event_type == event_type);
                            return true;
                        }
                        i += 1;
                    }
                    false
                },
                None => false,
            },
            None => false,
        }
    }

    /// Returns Active broadcast listeners in deterministic Instance order.
    pub fn broadcast_recipients(&self, event_type: EventTypeId) -> (r: Vec<ComponentInstanceId>)
        requires
            self.wf(),
        ensures
            r@ == broadcast_listeners(*self, event_type),
    {
        let ghost s = self.runtimes.seq();
        let ghost p = |rt: ComponentRuntime| listens(*self, rt.instance_id.0, event_type);
        let ghost f = |rt: ComponentRuntime| rt.instance_id;
        let mut out: Vec<ComponentInstanceId> = Vec::new();
        let mut i: usize = 0;
        while i < self.runtimes.len()
            invariant
                self.wf(),
                s == self.runtimes.seq(),
                p == (|rt: ComponentRuntime| listens(*self, rt.instance_id.0, event_type)),
                f == (|rt: ComponentRuntime| rt.instance_id),
                i <= s.len(),
                out@ == s.take(i as int).filter(p).map_values(f),
            decreases s.len() - i,
        {
            let runtime = self.runtimes.at(i);
            let listener = self.is_listener(runtime.instance_id.0, event_type);
            proof {
                assert(s.take(i as int + 1) =~= s.take(i as int).push(*runtime));
                s.take(i as int).lemma_filter_push(*runtime, p);
            }
            if listener {
                out.push(runtime.instance_id);
                proof {
                    let old_f = s.take(i as int).filter(p);
                    assert(old_f.push(*runtime).map_values(f) =~= old_f.map_values(f).push(f(*runtime)));
                }
            }
            i += 1;
        }
        assert(s.take(s.len() as int) =~= s);
        out
    }

    /// Distributes all independent Room batches through one Driver frontier.
    pub fn distribute_batches<D: EventLoopDriver>(&mut self, driver: &mut D, batches: Vec<RoomBatch>) -> (r: Result<Vec<SendReceipt>, KernelError>)
        requires
            old(self).wf(),
        ensures
            final(self).wf(),
            crate::delivery::same_except_runtimes(*old(self), *final(self)),
            exists|progress: Result<Seq<DeliveryProgress>, DriverError>, front: Result<Seq<DeliveryReceipt>, KernelError>|
                front_delivered(*old(self), *final(self), flat_batches(batch_views(batches@)), progress, front)
                && batches_routed(batch_views(batches@), front, r),
            batches_delivered_by(*old(self), *final(self), *old(driver), *final(driver), batch_views(batches@), r),
            final(self).runtimes@.dom() == old(self).runtimes@.dom(),
    {
        let ghost bs = batch_views(batches@);
        let deliveries = batch_deliveries(&batches);
        let ghost g1 = *self;
        let ghost d0 = *driver;
        let front = self.deliver_front(driver, &deliveries);
        let ghost fv = receipts_view(front);
        let receipts = match front {
            Err(e) => {
                proof {
                    let progress = choose|progress: Result<Seq<DeliveryProgress>, DriverError>|
                        #[trigger] front_delivered_by(g1, *self, d0, *driver, delivery_views(deliveries@), progress, fv);
                    assert(front_delivered(g1, *self, flat_batches(bs), progress, fv));
                    assert(front_delivered_by(g1, *self, d0, *driver, flat_batches(bs), progress, fv));
                    assert(batches_routed(bs, fv, Err::<Vec<SendReceipt>, KernelError>(e)));
                }
                return Err(e);
            },
            Ok(receipts) => receipts,
        };
        let total = receipts.len();
        let mut sends: Vec<SendReceipt> = Vec::new();
        let mut offset: usize = 0;
        let mut i: usize = 0;
        while i < batches.len()
            invariant
                bs == batch_views(batches@),
                i <= batches@.len(),
                receipts@.len() == flat_batches(bs).len(),
                total == receipts@.len(),
                offset == flat_batches(bs.take(i as int)).len(),
                sends@.len() == i,
                forall|q: int| 0 <= q < i ==> send_view(#[trigger] sends@[q]) == split_batches(bs, receipts@)[q],
            decreases batches@.len() - i,
        {
            proof {
                lemma_flat_prefix(bs, i as int);
                lemma_flat_prefix(bs, i as int + 1);
                assert(bs[i as int].deliveries.len() == batches@[i as int].deliveries@.len());
            }
            let end = offset + batches[i].deliveries.len();
            let mut part: Vec<DeliveryReceipt> = Vec::new();
            let mut j: usize = offset;
            while j < end
                invariant
                    offset <= j <= end,
                    end <= receipts@.len(),
                    part@ == receipts@.subrange(offset as int, j as int),
                decreases end - j,
            {
                part.push(receipts[j]);
                proof {
                    assert(part@ =~= receipts@.subrange(offset as int, j as int + 1));
                }
                j += 1;
            }
            sends.push(SendReceipt::new(batches[i].address, batches[i].sequence, part));
            offset = end;
            i += 1;
        }
        proof {
            let progress = choose|progress: Result<Seq<DeliveryProgress>, DriverError>|
                #[trigger] front_delivered_by(g1, *self, d0, *driver, delivery_views(deliveries@), progress, fv);
            assert(front_delivered(g1, *self, flat_batches(bs), progress, fv));
            assert(front_delivered_by(g1, *self, d0, *driver, flat_batches(bs), progress, fv));
            assert(sends@.map_values(|x: SendReceipt| send_view(x)) =~= split_batches(bs, receipts@));
            assert(batches_routed(bs, fv, Ok::<Vec<SendReceipt>, KernelError>(sends)));
        }
        Ok(sends)
    }

    /// Accepts one Event in its Room and builds the Deliveries of that step.
    pub fn accept_route(&mut self, address: RoomAddress, event: Event) -> (r: Result<RoomBatch, KernelError>)
        requires
            old(self).wf(),
        ensures
            final(self).wf(),
            final(self).definitions == old(self).definitions,
            final(self).instances == old(self).instances,
            final(self).requirements == old(self).requirements,
            final(self).capabilities == old(self).capabilities,
            final(self).bindings == old(self).bindings,
            final(self).runtimes == old(self).runtimes,
            final(self).effects == old(self).effects,
            final(self).contexts == old(self).contexts,
            final(self).facet_schemas == old(self).facet_schemas,
            final(self).facets == old(self).facets,
            final(self).subscriptions == old(self).subscriptions,
            !old(self).rooms@.contains_key(address.0) ==> r == Err::<RoomBatch, KernelError>(KernelError::UnavailableRoom(address))
                && final(self).rooms == old(self).rooms,
            old(self).rooms@.contains_key(address.0) ==> {
                let (room, out) = accept_step(old(self).rooms@[address.0]@, event@);
                &&& room_views(final(self).rooms@) == room_views(old(self).rooms@).insert(address.0, room)
                &&& match out {
                    Err(e) => r == Err::<RoomBatch, KernelError>(e),
                    Ok(accepted) => r matches Ok(b) && b@ == step_batch(old(self).subscriptions@, RoomStep { address, sequence: accepted.0, event: accepted.1 }),
                }
            },
    {
        if !self.rooms.contains_key(address.0) {
            return Err(KernelError::UnavailableRoom(address));
        }
        proof {
            self.rooms.lemma_view();
        }
        let ghost rooms0 = self.rooms@;
        let mut room = match self.rooms.remove(address.0) {
            Some(room) => room,
            None => {
                return Err(KernelError::UnavailableRoom(address));
            },
        };
        let accepted = room.accept(event);
        self.rooms.insert(room);
        proof {
            assert(room_views(self.rooms@) =~= room_views(rooms0).insert(address.0, accept_step(rooms0[address.0]@, event@).0));
        }
        let accepted = match accepted {
            Err(e) => {
                return Err(e);
            },
            Ok(accepted) => accepted,
        };
        let ghost subs = self.subscriptions@;
        let ghost p = |x: Subscription| x.room == address;
        let ghost f = |x: Subscription| DeliveryView {
            origin: DeliveryOrigin::Room { address, sequence: accepted.sequence },
            recipient: x.subscriber,
            event: accepted.event@,
        };
        let mut deliveries: Vec<Delivery> = Vec::new();
        let mut i: usize = 0;
        while i < self.subscriptions.len()
            invariant
                subs == self.subscriptions@,
                p == (|x: Subscription| x.room == address),
                f == (|x: Subscription| DeliveryView {
                    origin: DeliveryOrigin::Room { address, sequence: accepted.sequence },
                    recipient: x.subscriber,
                    event: accepted.event@,
                }),
                i <= subs.len(),
                delivery_views(deliveries@) == subs.take(i as int).filter(p).map_values(f),
            decreases subs.len() - i,
        {
            let x = self.subscriptions[i];
            proof {
                assert(subs.take(i as int + 1) =~= subs.take(i as int).push(x));
                subs.take(i as int).lemma_filter_push(x, p);
            }
            if x.room == address {
                let ghost prev = delivery_views(deliveries@);
                deliveries.push(Delivery::from_room(address, accepted.sequence, x.subscriber, accepted.event.clone()));
                proof {
                    let old_f = subs.take(i as int).filter(p);
                    assert(old_f.push(x).map_values(f) =~= old_f.map_values(f).push(f(x)));
                    assert(delivery_views(deliveries@) =~= prev.push(f(x)));
                }
            }
            i += 1;
        }
        assert(subs.take(subs.len() as int) =~= subs);
        Ok(RoomBatch { address, sequence: accepted.sequence, deliveries })
    }

    /// Accepts independent Room Events before one shared Driver frontier.
    pub fn route_rooms<D: EventLoopDriver>(&mut self, driver: &mut D, routes: Vec<(RoomAddress, Event)>) -> (r: Result<Vec<SendReceipt>, KernelError>)
        requires
            old(self).wf(),
        ensures
            final(self).wf(),
            final(self).definitions == old(self).definitions,
            final(self).instances == old(self).instances,
            final(self).requirements == old(self).requirements,
            final(self).capabilities == old(self).capabilities,
            final(self).bindings == old(self).bindings,
            final(self).effects == old(self).effects,
            final(self).contexts == old(self).contexts,
            final(self).facet_schemas == old(self).facet_schemas,
            final(self).facets == old(self).facets,
            final(self).subscriptions == old(self).subscriptions,
            room_views(final(self).rooms@) == accept_routes(room_views(old(self).rooms@), route_views(routes@)).0,
            accept_routes(room_views(old(self).rooms@), route_views(routes@)).1 matches Err(e)
                ==> r == Err::<Vec<SendReceipt>, KernelError>(e) && final(self).runtimes == old(self).runtimes
                    && *final(driver) == *old(driver),
            accept_routes(room_views(old(self).rooms@), route_views(routes@)).1 matches Ok(steps)
                ==> batches_delivered(*old(self), *final(self), steps_batches(old(self).subscriptions@, steps), r),
            accept_routes(room_views(old(self).rooms@), route_views(routes@)).1 matches Ok(steps)
                ==> batches_delivered_by(*old(self), *final(self), *old(driver), *final(driver), steps_batches(old(self).subscriptions@, steps), r),
            final(self).runtimes@.dom() == old(self).runtimes@.dom(),
    {
        let ghost g0 = *self;
        let ghost rv0 = room_views(g0.rooms@);
        let ghost rts = route_views(routes@);
        let ghost subs = g0.subscriptions@;
        let ghost mut steps: Seq<RoomStep> = Seq::empty();
        let mut batches: Vec<RoomBatch> = Vec::new();
        proof {
            assert(rts.take(0) =~= Seq::<(RoomAddress, EventView)>::empty());
            assert(batch_views(batches@) =~= steps_batches(subs, steps));
        }
        let mut i: usize = 0;
        while i < routes.len()
            invariant
                self.wf(),
                self.definitions == g0.definitions,
                self.instances == g0.instances,
                self.requirements == g0.requirements,
                self.capabilities == g0.capabilities,
                self.bindings == g0.bindings,
                self.runtimes == g0.runtimes,
                self.effects == g0.effects,
                self.contexts == g0.contexts,
                self.facet_schemas == g0.facet_schemas,
                self.facets == g0.facets,
                self.subscriptions == g0.subscriptions,
                g0 == *old(self),
                rv0 == room_views(g0.rooms@),
                rts == route_views(routes@),
                subs == g0.subscriptions@,
                i <= routes@.len(),
                room_views(self.rooms@) == accept_routes(rv0, rts.take(i as int)).0,
                accept_routes(rv0, rts.take(i as int)).1 == Ok::<Seq<RoomStep>, KernelError>(steps),
                *driver == *old(driver),
                batch_views(batches@) == steps_batches(subs, steps),
            decreases routes@.len() - i,
        {
            let address = routes[i].0;
            let event = routes[i].1.clone();
            let ghost t1 = rts.take(i as int + 1);
            proof {
                assert(t1.drop_last() =~= rts.take(i as int));
                assert(t1.last() == (address, event@));
            }
            let ghost before = *self;
            let ghost ev = event@;
            let batch = self.accept_route(address, event);
            match batch {
                Err(e) => {
                    proof {
                        lemma_accept_routes_stops(rv0, rts, i as int + 1, rts.len() as int);
                        assert(rts.take(rts.len() as int) =~= rts);
                        assert(self.definitions == g0.definitions);
                        assert(self.instances == g0.instances);
                        assert(accept_routes(rv0, rts).1 == Err::<Seq<RoomStep>, KernelError>(e));
                    }
                    return Err(e);
                },
                Ok(batch) => {
                    proof {
                        let m = accept_routes(rv0, rts.take(i as int)).0;
                        assert(before.rooms@.contains_key(address.0));
                        assert(m.contains_key(address.0));
                        assert(m[address.0] == before.rooms@[address.0]@);
                        let out = accept_step(m[address.0], ev).1;
                        assert(out is Ok);
                        let st = RoomStep { address, sequence: out->Ok_0.0, event: out->Ok_0.1 };
                        assert(batch@ == step_batch(subs, st));
                        assert(accept_routes(rv0, t1).1 == Ok::<Seq<RoomStep>, KernelError>(steps.push(st)));
                        assert(room_views(self.rooms@) == accept_routes(rv0, t1).0);
                        assert(steps_batches(subs, steps.push(st)) =~= steps_batches(subs, steps).push(step_batch(subs, st)));
                        steps = steps.push(st);
                    }
                    let ghost bv0 = batch_views(batches@);
                    let ghost bview = batch@;
                    batches.push(batch);
                    proof {
                        assert(batch_views(batches@) =~= bv0.push(bview));
                    }
                },
            }
            i += 1;
        }
        proof {
            assert(rts.take(rts.len() as int) =~= rts);
        }
        let ghost g1 = *self;
        let r = self.distribute_batches(driver, batches);
        proof {
            let (progress, front) = choose|progress: Result<Seq<DeliveryProgress>, DriverError>, front: Result<Seq<DeliveryReceipt>, KernelError>|
                front_delivered(g1, *self, flat_batches(steps_batches(subs, steps)), progress, front)
                && batches_routed(steps_batches(subs, steps), front, r);
            assert(front_delivered(g0, *self, flat_batches(steps_batches(subs, steps)), progress, front));
            assert(accept_routes(rv0, rts).1 == Ok::<Seq<RoomStep>, KernelError>(steps));
            assert(batches_routed(steps_batches(subs, steps), front, r));
            assert(g0 == *old(self));
            assert(rts == route_views(routes@));
            assert(accept_routes(room_views(old(self).rooms@), route_views(routes@)).1 == Ok::<Seq<RoomStep>, KernelError>(steps));
            assert(batches_delivered(*old(self), *self, steps_batches(old(self).subscriptions@, steps), r));
            let (progress2, front2) = choose|progress: Result<Seq<DeliveryProgress>, DriverError>, front: Result<Seq<DeliveryReceipt>, KernelError>|
                #[trigger] front_delivered_by(g1, *self, *old(driver), *driver, flat_batches(steps_batches(subs, steps)), progress, front)
                && batches_routed(steps_batches(subs, steps), front, r);
            assert(front_delivered_by(g0, *self, *old(driver), *driver, flat_batches(steps_batches(subs, steps)), progress2, front2));
            assert(batches_delivered_by(*old(self), *self, *old(driver), *driver, steps_batches(old(self).subscriptions@, steps), r));
        }
        r
    }

    /// Accepts and distributes one Event through exactly one FIFO Room step.
    pub fn send<D: EventLoopDriver>(&mut self, driver: &mut D, address: RoomAddress, event: Event) -> (r: Result<SendReceipt, KernelError>)
        requires
            old(self).wf(),
        ensures
            final(self).wf(),
            final(self).definitions == old(self).definitions,
            final(self).instances == old(self).instances,
            final(self).requirements == old(self).requirements,
            final(self).bindings == old(self).bindings,
            final(self).effects == old(self).effects,
            final(self).subscriptions == old(self).subscriptions,
            final(self).capabilities == old(self).capabilities,
            final(self).contexts == old(self).contexts,
            final(self).facet_schemas == old(self).facet_schemas,
            final(self).facets == old(self).facets,
            room_views(final(self).rooms@) == accept_routes(room_views(old(self).rooms@), seq![(address, event@)]).0,
            accept_routes(room_views(old(self).rooms@), seq![(address, event@)]).1 matches Err(e)
                ==> r == Err::<SendReceipt, KernelError>(e) && final(self).runtimes == old(self).runtimes && *final(driver) == *old(driver),
            accept_routes(room_views(old(self).rooms@), seq![(address, event@)]).1 matches Ok(steps)
                ==> batch_sent(*old(self), *final(self), steps_batches(old(self).subscriptions@, steps), r),
            accept_routes(room_views(old(self).rooms@), seq![(address, event@)]).1 matches Ok(steps)
                ==> batch_sent_by(*old(self), *final(self), *old(driver), *final(driver), steps_batches(old(self).subscriptions@, steps), r),
            final(self).runtimes@.dom() == old(self).runtimes@.dom(),
    {
        let ghost ev = event@;
        let routes = vec![(address, event)];
        proof {
            assert(route_views(routes@) =~= seq![(address, ev)]);
        }
        let ghost g0 = *self;
        let sent = self.route_rooms(driver, routes);
        let mut receipts = match sent {
            Err(e) => {
                return Err(e);
            },
            Ok(receipts) => receipts,
        };
        proof {
            let rts = seq![(address, ev)];
            assert(rts.drop_last() =~= Seq::<(RoomAddress, EventView)>::empty());
            assert(accept_routes(room_views(g0.rooms@), rts.drop_last()) == (room_views(g0.rooms@), Ok::<Seq<RoomStep>, KernelError>(Seq::empty())));
            let steps = accept_routes(room_views(g0.rooms@), rts).1->Ok_0;
            let bs = steps_batches(g0.subscriptions@, steps);
            assert(steps.len() == 1);
            let (progress, front) = choose|progress: Result<Seq<DeliveryProgress>, DriverError>, front: Result<Seq<DeliveryReceipt>, KernelError>|
                #[trigger] front_delivered_by(g0, *self, *old(driver), *driver, flat_batches(bs), progress, front) && batches_routed(bs, front, sent);
            assert(front is Ok);
            assert(receipts@.map_values(|x: SendReceipt| send_view(x)).len() == 1);
            assert(receipts@.map_values(|x: SendReceipt| send_view(x))[0] == send_view(receipts@[0]));
        }
        let receipt = receipts.remove(0);
        Ok(receipt)
    }

    /// Publishes through every typed Room route declared by an Active source.
    pub fn emit<D: EventLoopDriver>(&mut self, driver: &mut D, source: ComponentInstanceId, event: &Event) -> (r: Result<Vec<SendReceipt>, KernelError>)
        requires
            old(self).wf(),
        ensures
            final(self).wf(),
            final(self).definitions == old(self).definitions,
            final(self).instances == old(self).instances,
            final(self).requirements == old(self).requirements,
            final(self).bindings == old(self).bindings,
            final(self).effects == old(self).effects,
            final(self).subscriptions == old(self).subscriptions,
            final(self).capabilities == old(self).capabilities,
            final(self).contexts == old(self).contexts,
            final(self).facet_schemas == old(self).facet_schemas,
            final(self).facets == old(self).facets,
            !old(self).runtimes@.contains_key(source.0) ==> r == Err::<Vec<SendReceipt>, KernelError>(KernelError::InactiveEventSource(source))
                && *final(self) == *old(self) && *final(driver) == *old(driver),
            old(self).runtimes@.contains_key(source.0) ==> match emission_targets(*old(self), source, event@.event_type) {
                Err(e) => r == Err::<Vec<SendReceipt>, KernelError>(e) && *final(self) == *old(self) && *final(driver) == *old(driver),
                Ok(rooms) => {
                    let routed = accept_routes(room_views(old(self).rooms@), emission_routes(rooms, event@));
                    &&& room_views(final(self).rooms@) == routed.0
                    &&& routed.1 matches Err(e) ==> r == Err::<Vec<SendReceipt>, KernelError>(e) && final(self).runtimes == old(self).runtimes
                        && *final(driver) == *old(driver)
                    &&& routed.1 matches Ok(steps) ==> batches_delivered(*old(self), *final(self), steps_batches(old(self).subscriptions@, steps), r)
                    &&& routed.1 matches Ok(steps) ==> batches_delivered_by(*old(self), *final(self), *old(driver), *final(driver),
                        steps_batches(old(self).subscriptions@, steps), r)
                },
            },
            final(self).runtimes@.dom() == old(self).runtimes@.dom(),
    {
        if !self.runtimes.contains_key(source.0) {
            return Err(KernelError::InactiveEventSource(source));
        }
        let rooms = match self.emission_rooms(source, event.event_type()) {
            Err(e) => {
                return Err(e);
            },
            Ok(rooms) => rooms,
        };
        let ghost ev = event@;
        let mut routes: Vec<(RoomAddress, Event)> = Vec::new();
        let mut i: usize = 0;
        while i < rooms.len()
            invariant
                ev == event@,
                i <= rooms@.len(),
                route_views(routes@) == emission_routes(rooms@, ev).take(i as int),
            decreases rooms@.len() - i,
        {
            let ghost prev = route_views(routes@);
            routes.push((rooms[i], event.clone()));
            proof {
                assert(route_views(routes@) =~= prev.push((rooms@[i as int], ev)));
                assert(emission_routes(rooms@, ev).take(i as int + 1) =~= emission_routes(rooms@, ev).take(i as int).push((rooms@[i as int], ev)));
            }
            i += 1;
        }
        proof {
            assert(emission_routes(rooms@, ev).take(rooms@.len() as int) =~= emission_routes(rooms@, ev));
        }
        self.route_rooms(driver, routes)
    }

    /// Publishes directly to every Active listener of one Event type.
    pub fn broadcast<D: EventLoopDriver>(&mut self, driver: &mut D, event: &Event) -> (r: Result<BroadcastReceipt, KernelError>)
        requires
            old(self).wf(),
        ensures
            final(self).wf(),
            crate::delivery::same_except_runtimes(*old(self), *final(self)),
            broadcast_delivered(*old(self), *final(self), broadcast_deliveries(broadcast_listeners(*old(self), event@.event_type), event@), r),
            broadcast_delivered_by(*old(self), *final(self), *old(driver), *final(driver),
                broadcast_deliveries(broadcast_listeners(*old(self), event@.event_type), event@), r),
            final(self).runtimes@.dom() == old(self).runtimes@.dom(),
    {
        let recipients = self.broadcast_recipients(event.event_type());
        let ghost ds = broadcast_deliveries(recipients@, event@);
        let mut deliveries: Vec<Delivery> = Vec::new();
        let mut i: usize = 0;
        while i < recipients.len()
            invariant
                ds == broadcast_deliveries(recipients@, event@),
                i <= recipients@.len(),
                delivery_views(deliveries@) == ds.take(i as int),
            decreases recipients@.len() - i,
        {
            let ghost prev = delivery_views(deliveries@);
            deliveries.push(Delivery::from_broadcast(recipients[i], event.clone()));
            proof {
                assert(delivery_views(deliveries@) =~= prev.push(ds[i as int]));
                assert(ds.take(i as int + 1) =~= ds.take(i as int).push(ds[i as int]));
            }
            i += 1;
        }
        proof {
            assert(ds.take(recipients@.len() as int) =~= ds);
        }
        let ghost g0 = *self;
        let front = self.deliver_front(driver, &deliveries);
        let ghost fv = receipts_view(front);
        let r = match front {
            Err(e) => Err(e),
            Ok(receipts) => Ok(BroadcastReceipt::new(receipts)),
        };
        proof {
            let progress = choose|progress: Result<Seq<DeliveryProgress>, DriverError>|
                #[trigger] front_delivered_by(g0, *self, *old(driver), *driver, delivery_views(deliveries@), progress, fv);
            assert(front_delivered(g0, *self, ds, progress, fv));
            assert(front_delivered_by(g0, *self, *old(driver), *driver, ds, progress, fv));
        }
        r
    }
}


/// A send changes no Runtime identity and keeps Mailboxes within their bounds.
pub proof fn lemma_batch_sent_keeps_ids(old: GraphState, new: GraphState, bs: Seq<BatchView>, r: Result<SendReceipt, KernelError>)
    requires
        batch_sent(old, new, bs, r),
    ensures
        runtime_ids_kept(old.runtimes@, new.runtimes@),
        mailboxes_bounded(old.runtimes@) ==> mailboxes_bounded(new.runtimes@),
{
    let (progress, front) = choose|progress: Result<Seq<DeliveryProgress>, DriverError>, front: Result<Seq<DeliveryReceipt>, KernelError>|
        front_delivered(old, new, flat_batches(bs), progress, front) && match front {
            Err(e) => r == Err::<SendReceipt, KernelError>(e),
            Ok(rs) => r matches Ok(x) && send_view(x) == split_batches(bs, rs)[0],
        };
    lemma_front_delivered_keeps_ids(old, new, flat_batches(bs), progress, front);
}

/// An emission changes no Runtime identity and keeps Mailboxes within their bounds.
pub proof fn lemma_batches_delivered_keeps_ids(old: GraphState, new: GraphState, bs: Seq<BatchView>, r: Result<Vec<SendReceipt>, KernelError>)
    requires
        batches_delivered(old, new, bs, r),
    ensures
        runtime_ids_kept(old.runtimes@, new.runtimes@),
        mailboxes_bounded(old.runtimes@) ==> mailboxes_bounded(new.runtimes@),
{
    let (progress, front) = choose|progress: Result<Seq<DeliveryProgress>, DriverError>, front: Result<Seq<DeliveryReceipt>, KernelError>|
        front_delivered(old, new, flat_batches(bs), progress, front) && batches_routed(bs, front, r);
    lemma_front_delivered_keeps_ids(old, new, flat_batches(bs), progress, front);
}

/// A broadcast changes no Runtime identity and keeps Mailboxes within their bounds.
pub proof fn lemma_broadcast_keeps_ids(old: GraphState, new: GraphState, ds: Seq<DeliveryView>, r: Result<BroadcastReceipt, KernelError>)
    requires
        broadcast_delivered(old, new, ds, r),
    ensures
        runtime_ids_kept(old.runtimes@, new.runtimes@),
        mailboxes_bounded(old.runtimes@) ==> mailboxes_bounded(new.runtimes@),
{
    let (progress, front) = choose|progress: Result<Seq<DeliveryProgress>, DriverError>, front: Result<Seq<DeliveryReceipt>, KernelError>|
        front_delivered(old, new, ds, progress, front) && match front {
            Err(e) => r == Err::<BroadcastReceipt, KernelError>(e),
            Ok(rs) => r matches Ok(b) && b.deliveries@ == rs,
        };
    lemma_front_delivered_keeps_ids(old, new, ds, progress, front);
}


/// The positions of `s` whose element satisfies `p`, in increasing order: the
/// filtered sequence is exactly the elements at those positions.
pub proof fn lemma_filter_positions<A>(s: Seq<A>, p: spec_fn(A) -> bool) -> (pos: Seq<int>)
    ensures
        pos.len() == s.filter(p).len(),
        forall|i: int| 0 <= i < pos.len() ==> 0 <= #[trigger] pos[i] < s.len() && p(s[pos[i]]) && s.filter(p)[i] == s[pos[i]],
        forall|i: int, k: int| 0 <= i < k < pos.len() ==> #[trigger] pos[i] < #[trigger] pos[k],
        forall|j: int| 0 <= j < s.len() && #[trigger] p(s[j]) ==> exists|i: int| 0 <= i < pos.len() && pos[i] == j,
    decreases s.len(),
{
    reveal(Seq::filter);
    if s.len() == 0 {
        Seq::empty()
    } else {
        let t = s.drop_last();
        let x = s.last();
        let pt = lemma_filter_positions(t, p);
        assert(s =~= t.push(x));
        t.lemma_filter_push(x, p);
        assert forall|j: int| 0 <= j < t.len() implies t[j] == s[j] by {}
        if p(x) {
            let pos = pt.push(s.len() - 1);
            assert forall|i: int| 0 <= i < pos.len() implies 0 <= #[trigger] pos[i] < s.len() && p(s[pos[i]]) && s.filter(p)[i] == s[pos[i]] by {
                if i < pt.len() {
                    assert(pos[i] == pt[i]);
                }
            }
            assert forall|j: int| 0 <= j < s.len() && #[trigger] p(s[j]) implies exists|i: int| 0 <= i < pos.len() && pos[i] == j by {
                if j < t.len() {
                    assert(p(t[j]));
                    let i = choose|i: int| 0 <= i < pt.len() && pt[i] == j;
                    assert(pos[i] == j);
                } else {
                    assert(pos[pt.len() as int] == j);
                }
            }
            pos
        } else {
            assert forall|i: int| 0 <= i < pt.len() implies 0 <= #[trigger] pt[i] < s.len() && p(s[pt[i]]) && s.filter(p)[i] == s[pt[i]] by {}
            assert forall|j: int| 0 <= j < s.len() && #[trigger] p(s[j]) implies exists|i: int| 0 <= i < pt.len() && pt[i] == j by {
                if j < t.len() {
                    assert(p(t[j]));
                }
            }
            pt
        }
    }
}

/// A living source emits an Event of type `t` to the Rooms of all of its
/// Emission declarations for `t`, in declaration order, each exactly once:
/// the `i`-th Room is that of the `i`-th matching declaration, and every
/// matching declaration contributes its Room. Without any matching declaration
/// the emission is refused as undeclared.
pub proof fn law_emission_reaches_every_declared_room(g: GraphState, source: ComponentInstanceId, t: EventTypeId)
    requires
        definition_of(g, source.0) is Some,
    ensures
        ({
            let es = definition_of(g, source.0)->0.routing.emissions@;
            &&& (forall|j: int| 0 <= j < es.len() ==> es[j].event_type != t)
                <==> emission_targets(g, source, t) == Err::<Seq<RoomAddress>, KernelError>(KernelError::UndeclaredEmission { emitter: source, event_type: t })
            &&& emission_targets(g, source, t) matches Ok(rooms) ==> exists|pos: Seq<int>| {
                &&& pos.len() == rooms.len()
                &&& forall|i: int| 0 <= i < pos.len() ==> 0 <= #[trigger] pos[i] < es.len() && es[pos[i]].event_type == t && rooms[i] == es[pos[i]].room
                &&& forall|i: int, k: int| 0 <= i < k < pos.len() ==> #[trigger] pos[i] < #[trigger] pos[k]
                &&& forall|j: int| 0 <= j < es.len() && #[trigger] es[j].event_type == t ==> exists|i: int| 0 <= i < pos.len() && pos[i] == j
            }
        }),
{
    let es = definition_of(g, source.0)->0.routing.emissions@;
    let p = |e: EmissionDeclaration| e.event_type == t;
    let f = |e: EmissionDeclaration| e.room;
    let pos = lemma_filter_positions(es, p);
    let rooms = es.filter(p).map_values(f);
    assert(emission_targets(g, source, t) == (if rooms.len() == 0 {
        Err::<Seq<RoomAddress>, KernelError>(KernelError::UndeclaredEmission { emitter: source, event_type: t })
    } else {
        Ok::<Seq<RoomAddress>, KernelError>(rooms)
    }));
    assert forall|j: int| 0 <= j < es.len() && #[trigger] es[j].event_type == t implies exists|i: int| 0 <= i < pos.len() && pos[i] == j by {
        assert(p(es[j]));
    }
    if forall|j: int| 0 <= j < es.len() ==> es[j].event_type != t {
        if rooms.len() > 0 {
            assert(p(es[pos[0]]));
        }
    } else {
        let j = choose|j: int| 0 <= j < es.len() && es[j].event_type == t;
        assert(p(es[j]));
        assert(rooms.len() > 0);
    }
    assert forall|i: int| 0 <= i < pos.len() implies 0 <= #[trigger] pos[i] < es.len() && es[pos[i]].event_type == t && rooms[i] == es[pos[i]].room by {
        assert(p(es[pos[i]]));
    }
}

/// A broadcast of type `t` reaches exactly the Instances with a living Runtime
/// whose Definition has a broadcast subscription of type `t` at any position,
/// each once, in increasing Instance order.
pub proof fn law_broadcast_reaches_every_listener(g: GraphState, t: EventTypeId)
    requires
        g.wf(),
        g.consistent(),
    ensures
        forall|k: u64| (exists|i: int| 0 <= i < broadcast_listeners(g, t).len() && #[trigger] broadcast_listeners(g, t)[i].0 == k) <==> {
            &&& g.runtimes@.contains_key(k)
            &&& definition_of(g, k) is Some
            &&& exists|j: int| 0 <= j < definition_of(g, k)->0.routing.broadcast_subscriptions@.len()
                && #[trigger] definition_of(g, k)->0.routing.broadcast_subscriptions@[j].event_type == t
        },
        forall|i: int, j: int| 0 <= i < j < broadcast_listeners(g, t).len()
            ==> (#[trigger] broadcast_listeners(g, t)[i]).0 < (#[trigger] broadcast_listeners(g, t)[j]).0,
{
    let s = g.runtimes.seq();
    let p = |rt: ComponentRuntime| listens(g, rt.instance_id.0, t);
    let f = |rt: ComponentRuntime| rt.instance_id;
    let ls = broadcast_listeners(g, t);
    assert(ls == s.filter(p).map_values(f));
    let pos = lemma_filter_positions(s, p);
    g.runtimes.lemma_view();
    crate::keyed::lemma_sorted_all(s);
    assert forall|k: u64| (exists|i: int| 0 <= i < ls.len() && #[trigger] ls[i].0 == k) <==> {
        &&& g.runtimes@.contains_key(k)
        &&& definition_of(g, k) is Some
        &&& exists|j: int| 0 <= j < definition_of(g, k)->0.routing.broadcast_subscriptions@.len()
            && #[trigger] definition_of(g, k)->0.routing.broadcast_subscriptions@[j].event_type == t
    } by {
        if exists|i: int| 0 <= i < ls.len() && #[trigger] ls[i].0 == k {
            let i = choose|i: int| 0 <= i < ls.len() && #[trigger] ls[i].0 == k;
            let rt = s[pos[i]];
            assert(p(rt));
            assert(ls[i] == rt.instance_id);
            assert(g.runtimes@[rt.spec_key()] == rt);
            assert(rt.spec_key() == rt.instance_id.0);
        }
        if g.runtimes@.contains_key(k) && listens(g, k, t) {
            let q = choose|q: int| 0 <= q < s.len() && s[q].spec_key() == k;
            assert(g.runtimes@[k] == s[q]);
            assert(s[q].instance_id.0 == k);
            assert(p(s[q]));
            let i = choose|i: int| 0 <= i < pos.len() && pos[i] == q;
            assert(ls[i] == s[q].instance_id);
        }
    }
    assert forall|i: int, j: int| 0 <= i < j < ls.len() implies (#[trigger] ls[i]).0 < (#[trigger] ls[j]).0 by {
        let a = s[pos[i]];
        let b = s[pos[j]];
        assert(pos[i] < pos[j]);
        assert(a.spec_key() < b.spec_key());
        assert(g.runtimes@[a.spec_key()] == a);
        assert(g.runtimes@[b.spec_key()] == b);
        assert(a.instance_id.0 == a.spec_key());
        assert(b.instance_id.0 == b.spec_key());
        assert(ls[i] == a.instance_id && ls[j] == b.instance_id);
    }
}

/// Without a living Instance and its Definition, the source cannot emit.
pub proof fn law_emission_needs_living_source(g: GraphState, source: ComponentInstanceId, t: EventTypeId)
    requires
        !(g.instances@.contains_key(source.0) && g.definitions@.contains_key(g.instances@[source.0].definition_id.0)),
    ensures
        emission_targets(g, source, t) == Err::<Seq<RoomAddress>, KernelError>(KernelError::InactiveEventSource(source)),
{
}

/// An emission offers the same Event once to each of its Rooms, in order, and
/// a broadcast offers the same Event once to each listener, in order, as a
/// broadcast Delivery addressed to that listener.
pub proof fn law_routes_carry_the_event(rooms: Seq<RoomAddress>, listeners: Seq<ComponentInstanceId>, event: EventView)
    ensures
        emission_routes(rooms, event).len() == rooms.len(),
        forall|i: int| 0 <= i < rooms.len() ==> #[trigger] emission_routes(rooms, event)[i] == (rooms[i], event),
        broadcast_deliveries(listeners, event).len() == listeners.len(),
        forall|i: int| 0 <= i < listeners.len() ==> #[trigger] broadcast_deliveries(listeners, event)[i]
            == (DeliveryView { origin: DeliveryOrigin::Broadcast, recipient: listeners[i], event }),
{
}

} // verus!
