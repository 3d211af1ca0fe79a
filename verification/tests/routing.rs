use meta_system_kernel::{
    BroadcastSubscription, ComponentDefinition, ComponentDefinitionId, ComponentInstanceId, DeliveryOrigin, DeliveryState,
    EmissionDeclaration, Event, EventId, EventTypeId, KernelError, KernelEvent, KernelRuntime, MailboxOverflowStrategy,
    MailboxPolicy, QueueCapacity, RoomAddress, RoomDeclaration, RoutingContract, SubscriptionDeclaration, Requirement,
    RequirementId, CapabilityContractId, RoomSequence,
};

fn capacity(value: usize) -> QueueCapacity {
    QueueCapacity::new(value).unwrap()
}

fn event(id: u64, event_type: u64) -> Event {
    Event::new(EventId::new(id), EventTypeId::new(event_type), vec![1, 2, 3])
}

fn owner_of_room(definition: u64, room: u64) -> ComponentDefinition {
    ComponentDefinition::new(ComponentDefinitionId::new(definition)).with_routing(
        RoutingContract::new()
            .with_room(RoomDeclaration::new(RoomAddress::new(room), capacity(4)))
            .with_emission(EmissionDeclaration::new(EventTypeId::new(7), RoomAddress::new(room))),
    )
}

fn subscriber(definition: u64, room: u64, policy: MailboxPolicy) -> ComponentDefinition {
    ComponentDefinition::new(ComponentDefinitionId::new(definition)).with_routing(
        RoutingContract::new()
            .with_mailbox_policy(policy)
            .with_subscription(SubscriptionDeclaration::new(RoomAddress::new(room)))
            .with_broadcast_subscription(BroadcastSubscription::new(EventTypeId::new(9))),
    )
}

fn register(runtime: &mut KernelRuntime, definition: ComponentDefinition, instance: u64) {
    runtime.handle(KernelEvent::register_component(definition, ComponentInstanceId::new(instance))).unwrap();
}

#[test]
fn queue_capacity_must_be_positive() {
    assert!(QueueCapacity::new(0).is_none());
    assert_eq!(QueueCapacity::new(3).unwrap().get(), 3);
    assert_eq!(QueueCapacity::default().get(), 16);
}

#[test]
fn sending_to_an_unavailable_room_is_refused() {
    let mut runtime = KernelRuntime::new();
    let error = runtime.send(RoomAddress::new(5), event(1, 7)).unwrap_err();
    assert_eq!(error, KernelError::UnavailableRoom(RoomAddress::new(5)));
}

#[test]
fn sends_to_one_room_get_consecutive_sequences_and_reach_subscribers() {
    let mut runtime = KernelRuntime::new();
    register(&mut runtime, owner_of_room(1, 50), 1);
    register(&mut runtime, subscriber(2, 50, MailboxPolicy::default()), 2);
    let first = runtime.send(RoomAddress::new(50), event(1, 7)).unwrap();
    let second = runtime.send(RoomAddress::new(50), event(2, 7)).unwrap();
    assert_eq!(first.room(), RoomAddress::new(50));
    assert_eq!(first.sequence(), RoomSequence::new(1));
    assert_eq!(second.sequence(), RoomSequence::new(2));
    assert_eq!(first.deliveries().len(), 1);
    assert_eq!(first.deliveries()[0].recipient(), ComponentInstanceId::new(2));
    assert_eq!(first.deliveries()[0].state(), DeliveryState::Delivered);
    assert!(!first.deliveries()[0].is_processed());
    let graph = runtime.graph();
    let mailbox = graph.component_runtime(ComponentInstanceId::new(2)).unwrap().mailbox();
    assert_eq!(mailbox.len(), 2);
    assert_eq!(mailbox.deliveries()[0].origin(), DeliveryOrigin::Room { address: RoomAddress::new(50), sequence: RoomSequence::new(1) });
    assert_eq!(mailbox.deliveries()[1].event().id(), EventId::new(2));
}

#[test]
fn full_mailbox_rejects_new_deliveries_or_drops_the_oldest() {
    let mut runtime = KernelRuntime::new();
    register(&mut runtime, owner_of_room(1, 50), 1);
    register(&mut runtime, subscriber(2, 50, MailboxPolicy::new(capacity(1), MailboxOverflowStrategy::RejectNew)), 2);
    register(&mut runtime, subscriber(3, 50, MailboxPolicy::new(capacity(1), MailboxOverflowStrategy::DropOldest)), 3);
    runtime.send(RoomAddress::new(50), event(1, 7)).unwrap();
    let second = runtime.send(RoomAddress::new(50), event(2, 7)).unwrap();
    assert_eq!(second.deliveries()[0].recipient(), ComponentInstanceId::new(2));
    assert_eq!(second.deliveries()[0].state(), DeliveryState::RejectedFull);
    assert_eq!(second.deliveries()[1].recipient(), ComponentInstanceId::new(3));
    assert_eq!(second.deliveries()[1].state(), DeliveryState::DeliveredAfterDroppingOldest);
    let graph = runtime.graph();
    assert_eq!(graph.component_runtime(ComponentInstanceId::new(2)).unwrap().mailbox().deliveries()[0].event().id(), EventId::new(1));
    assert_eq!(graph.component_runtime(ComponentInstanceId::new(3)).unwrap().mailbox().deliveries()[0].event().id(), EventId::new(2));
}

#[test]
fn emit_needs_an_active_source_and_a_declared_route() {
    let mut runtime = KernelRuntime::new();
    assert_eq!(runtime.emit(ComponentInstanceId::new(1), &event(1, 7)).unwrap_err(),
        KernelError::InactiveEventSource(ComponentInstanceId::new(1)));
    register(&mut runtime, owner_of_room(1, 50), 1);
    register(&mut runtime, subscriber(2, 50, MailboxPolicy::default()), 2);
    assert_eq!(runtime.emit(ComponentInstanceId::new(1), &event(1, 8)).unwrap_err(),
        KernelError::UndeclaredEmission { emitter: ComponentInstanceId::new(1), event_type: EventTypeId::new(8) });
    let receipts = runtime.emit(ComponentInstanceId::new(1), &event(2, 7)).unwrap();
    assert_eq!(receipts.len(), 1);
    assert_eq!(receipts[0].room(), RoomAddress::new(50));
    assert_eq!(receipts[0].deliveries()[0].recipient(), ComponentInstanceId::new(2));
}

#[test]
fn broadcast_reaches_active_listeners_in_instance_order() {
    let mut runtime = KernelRuntime::new();
    register(&mut runtime, owner_of_room(1, 50), 1);
    register(&mut runtime, subscriber(4, 50, MailboxPolicy::default()), 4);
    register(&mut runtime, subscriber(3, 50, MailboxPolicy::default()), 3);
    let pending = ComponentDefinition::new(ComponentDefinitionId::new(9))
        .with_requirement(Requirement::necessary(RequirementId::new(1), CapabilityContractId::new(77)))
        .with_routing(RoutingContract::new().with_broadcast_subscription(BroadcastSubscription::new(EventTypeId::new(9))));
    register(&mut runtime, pending, 9);
    let receipt = runtime.broadcast(&event(5, 9)).unwrap();
    assert_eq!(receipt.deliveries().len(), 2);
    assert_eq!(receipt.deliveries()[0].recipient(), ComponentInstanceId::new(3));
    assert_eq!(receipt.deliveries()[1].recipient(), ComponentInstanceId::new(4));
    let mailbox = runtime.graph().component_runtime(ComponentInstanceId::new(3)).unwrap().mailbox().deliveries()[0].origin();
    assert_eq!(mailbox, DeliveryOrigin::Broadcast);
    let none = runtime.broadcast(&event(6, 1)).unwrap();
    assert!(none.deliveries().is_empty());
}

#[test]
fn duplicate_room_and_undeclared_emission_room_are_refused() {
    let mut runtime = KernelRuntime::new();
    register(&mut runtime, owner_of_room(1, 50), 1);
    let error = runtime.handle(KernelEvent::register_component(owner_of_room(2, 50), ComponentInstanceId::new(2))).unwrap_err();
    assert_eq!(error, KernelError::DuplicateRoomAddress(RoomAddress::new(50)));
    let stray = ComponentDefinition::new(ComponentDefinitionId::new(3))
        .with_routing(RoutingContract::new().with_emission(EmissionDeclaration::new(EventTypeId::new(7), RoomAddress::new(60))));
    let error = runtime.handle(KernelEvent::register_component(stray, ComponentInstanceId::new(3))).unwrap_err();
    assert_eq!(error, KernelError::UndeclaredEmissionRoom(RoomAddress::new(60)));
}

#[test]
fn unregistering_the_room_owner_releases_its_room() {
    let mut runtime = KernelRuntime::new();
    register(&mut runtime, owner_of_room(1, 50), 1);
    register(&mut runtime, subscriber(2, 50, MailboxPolicy::default()), 2);
    runtime.handle(KernelEvent::unregister_component(ComponentInstanceId::new(1))).unwrap();
    assert_eq!(runtime.send(RoomAddress::new(50), event(1, 7)).unwrap_err(), KernelError::UnavailableRoom(RoomAddress::new(50)));
}

#[test]
fn mailboxes_never_exceed_their_capacity() {
    let mut runtime = KernelRuntime::new();
    register(&mut runtime, owner_of_room(1, 50), 1);
    register(&mut runtime, subscriber(2, 50, MailboxPolicy::new(capacity(2), MailboxOverflowStrategy::RejectNew)), 2);
    register(&mut runtime, subscriber(3, 50, MailboxPolicy::new(capacity(2), MailboxOverflowStrategy::DropOldest)), 3);
    for id in 1..6u64 {
        runtime.send(RoomAddress::new(50), event(id, 7)).unwrap();
        let graph = runtime.graph();
        for instance in [2u64, 3] {
            let mailbox = graph.component_runtime(ComponentInstanceId::new(instance)).unwrap().mailbox();
            assert!(mailbox.len() <= mailbox.capacity().get());
        }
    }
    let graph = runtime.graph();
    let rejecting = graph.component_runtime(ComponentInstanceId::new(2)).unwrap().mailbox();
    let dropping = graph.component_runtime(ComponentInstanceId::new(3)).unwrap().mailbox();
    assert_eq!(rejecting.len(), 2);
    assert_eq!(rejecting.deliveries()[0].event().id(), EventId::new(1));
    assert_eq!(rejecting.deliveries()[1].event().id(), EventId::new(2));
    assert_eq!(dropping.len(), 2);
    assert_eq!(dropping.deliveries()[0].event().id(), EventId::new(4));
    assert_eq!(dropping.deliveries()[1].event().id(), EventId::new(5));
}
