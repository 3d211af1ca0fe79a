use meta_system_kernel::{
    AddonId, BindingCandidate, BindingDecision, BindingHook, BindingProposal, BroadcastSubscription, CapabilityContractId,
    CapabilityId, ComponentDefinition, ComponentDefinitionId, ComponentInstanceId, ComponentRuntimeId, Context, ContextId,
    ContextOwner, ContextVisibility, Delivery, DeliveryProgress, DriverError, DriverProgress, EmissionDeclaration, Event,
    EventId, EventLoopDriver, EventTypeId, Facet, FacetId, FacetSchema, FacetSchemaId, FacetTarget, FacetValue,
    FacetValueKind, GraphEntityKind, HookOrder, KernelError, KernelEvent, KernelRuntime, QueueCapacity, RequirementId,
    RoomAddress, RoomDeclaration, RoutingContract, SubscriptionDeclaration, evaluate_binding_hooks,
};
use meta_system_kernel::graph::GraphState;

struct FixedHook {
    decision: BindingDecision,
}

impl BindingHook for FixedHook {
    fn addon(&self) -> AddonId {
        AddonId::new(4)
    }

    fn order(&self) -> HookOrder {
        HookOrder::new(1)
    }

    fn evaluate(&self, _proposal: &BindingProposal) -> BindingDecision {
        self.decision.clone()
    }
}

fn proposal() -> BindingProposal {
    let candidates = vec![
        BindingCandidate::new(CapabilityId::new(10), ComponentInstanceId::new(1)),
        BindingCandidate::new(CapabilityId::new(20), ComponentInstanceId::new(2)),
    ];
    BindingProposal::new(RequirementId::new(5), CapabilityContractId::new(100), candidates, CapabilityId::new(10))
}

fn selected() -> BindingCandidate {
    BindingCandidate::new(CapabilityId::new(10), ComponentInstanceId::new(1))
}

#[test]
fn binding_hooks_allow_reselect_reject_or_fail() {
    let none: Vec<Box<dyn BindingHook>> = Vec::new();
    assert_eq!(evaluate_binding_hooks(&none, proposal(), selected()).unwrap(), selected());
    let allow: Vec<Box<dyn BindingHook>> = vec![Box::new(FixedHook { decision: BindingDecision::Allow })];
    assert_eq!(evaluate_binding_hooks(&allow, proposal(), selected()).unwrap(), selected());
    let reselect: Vec<Box<dyn BindingHook>> = vec![Box::new(FixedHook { decision: BindingDecision::SelectCapability(CapabilityId::new(20)) })];
    assert_eq!(evaluate_binding_hooks(&reselect, proposal(), selected()).unwrap(),
        BindingCandidate::new(CapabilityId::new(20), ComponentInstanceId::new(2)));
    let reject: Vec<Box<dyn BindingHook>> = vec![Box::new(FixedHook { decision: BindingDecision::Reject("no".to_string()) })];
    assert_eq!(evaluate_binding_hooks(&reject, proposal(), selected()).unwrap_err(),
        KernelError::BindingRejected { addon: AddonId::new(4), requirement: RequirementId::new(5), reason: "no".to_string() });
    let invalid: Vec<Box<dyn BindingHook>> = vec![Box::new(FixedHook { decision: BindingDecision::SelectCapability(CapabilityId::new(30)) })];
    assert_eq!(evaluate_binding_hooks(&invalid, proposal(), selected()).unwrap_err(),
        KernelError::InvalidBindingSelection { addon: AddonId::new(4), requirement: RequirementId::new(5), capability: CapabilityId::new(30) });
}

#[test]
fn facet_schema_and_facet_identities_are_unique() {
    let mut graph = GraphState::new();
    let addon = AddonId::new(1);
    graph.register_context(Context::new(ContextId::new(1), ContextOwner::Addon(addon), ContextVisibility::Runtime)).unwrap();
    let schema = FacetSchema::new(FacetSchemaId::new(1), addon, FacetValueKind::Integer, GraphEntityKind::Context);
    graph.register_facet_schema(schema.clone()).unwrap();
    assert_eq!(graph.register_facet_schema(schema).unwrap_err(), KernelError::DuplicateFacetSchema(FacetSchemaId::new(1)));
    let unknown = Facet::new(FacetId::new(1), FacetSchemaId::new(2), ContextId::new(1), FacetTarget::Context(ContextId::new(1)), FacetValue::Integer(3));
    assert_eq!(graph.attach_facet(unknown).unwrap_err(), KernelError::UnknownFacetSchema(FacetSchemaId::new(2)));
    let facet = Facet::new(FacetId::new(1), FacetSchemaId::new(1), ContextId::new(1), FacetTarget::Context(ContextId::new(1)), FacetValue::Integer(3));
    graph.attach_facet(facet.clone()).unwrap();
    assert_eq!(graph.attach_facet(facet).unwrap_err(), KernelError::DuplicateFacet(FacetId::new(1)));
}

#[test]
fn repeated_subscriptions_are_refused() {
    let mut runtime = KernelRuntime::new();
    let twice = ComponentDefinition::new(ComponentDefinitionId::new(1)).with_routing(
        RoutingContract::new()
            .with_subscription(SubscriptionDeclaration::new(RoomAddress::new(5)))
            .with_subscription(SubscriptionDeclaration::new(RoomAddress::new(5))),
    );
    let error = runtime.handle(KernelEvent::register_component(twice, ComponentInstanceId::new(1))).unwrap_err();
    assert_eq!(error, KernelError::DuplicateSubscription(RoomAddress::new(5)));
    let listens_twice = ComponentDefinition::new(ComponentDefinitionId::new(2)).with_routing(
        RoutingContract::new()
            .with_broadcast_subscription(BroadcastSubscription::new(EventTypeId::new(9)))
            .with_broadcast_subscription(BroadcastSubscription::new(EventTypeId::new(9))),
    );
    let error = runtime.handle(KernelEvent::register_component(listens_twice, ComponentInstanceId::new(2))).unwrap_err();
    assert_eq!(error, KernelError::DuplicateBroadcastSubscription(EventTypeId::new(9)));
    assert!(runtime.graph().instance(ComponentInstanceId::new(1)).is_none());
    assert!(runtime.graph().instance(ComponentInstanceId::new(2)).is_none());
}

#[derive(Debug, Default)]
struct DeliveryDriver {
    fail: bool,
}

impl EventLoopDriver for DeliveryDriver {
    fn start(&mut self, _instance_id: ComponentInstanceId, _runtime_id: ComponentRuntimeId) -> Result<(), DriverError> {
        Ok(())
    }

    fn advance(&mut self) -> Result<DriverProgress, DriverError> {
        Ok(DriverProgress::Idle)
    }

    fn process_delivery_front(&mut self, _deliveries: &[Delivery]) -> Result<Vec<DeliveryProgress>, DriverError> {
        if self.fail { Err(DriverError::new("busy".to_string())) } else { Ok(Vec::new()) }
    }

    fn stop(&mut self, _instance_id: ComponentInstanceId) -> Result<(), DriverError> {
        Ok(())
    }
}

fn room_pair(runtime: &mut KernelRuntime<DeliveryDriver>) {
    let owner = ComponentDefinition::new(ComponentDefinitionId::new(1)).with_routing(
        RoutingContract::new()
            .with_room(RoomDeclaration::new(RoomAddress::new(50), QueueCapacity::new(2).unwrap()))
            .with_emission(EmissionDeclaration::new(EventTypeId::new(7), RoomAddress::new(50))),
    );
    let listener = ComponentDefinition::new(ComponentDefinitionId::new(2))
        .with_routing(RoutingContract::new().with_subscription(SubscriptionDeclaration::new(RoomAddress::new(50))));
    runtime.handle(KernelEvent::register_component(owner, ComponentInstanceId::new(1))).unwrap();
    runtime.handle(KernelEvent::register_component(listener, ComponentInstanceId::new(2))).unwrap();
}

#[test]
fn driver_delivery_failures_are_reported() {
    let mut failing = KernelRuntime::with_event_loop_driver(DeliveryDriver { fail: true });
    room_pair(&mut failing);
    let error = failing.send(RoomAddress::new(50), Event::new(EventId::new(1), EventTypeId::new(7), vec![])).unwrap_err();
    assert_eq!(error, KernelError::DriverDelivery { recipient: ComponentInstanceId::new(2), error: DriverError::new("busy".to_string()) });
    let mut short = KernelRuntime::with_event_loop_driver(DeliveryDriver { fail: false });
    room_pair(&mut short);
    let error = short.send(RoomAddress::new(50), Event::new(EventId::new(1), EventTypeId::new(7), vec![])).unwrap_err();
    assert_eq!(error, KernelError::InvalidDeliveryFrontSize { expected: 1, actual: 0 });
}
