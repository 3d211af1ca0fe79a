use meta_system_kernel::{
    AddonId, Capability, CapabilityContractId, CapabilityId, ComponentDefinition, ComponentDefinitionId, ComponentInstanceId,
    Context, ContextId, ContextOwner, ContextVisibility, DriverError, Effect, EffectId, EventLoopDriver, DriverProgress,
    Facet, FacetId, FacetSchema, FacetSchemaId, FacetTarget, FacetValue, FacetValueKind, GraphEntityKind, KernelError,
    KernelEvent, KernelRuntime, Requirement, RequirementId, ResolutionState, ComponentRuntimeId,
};
use meta_system_kernel::graph::GraphState;

fn provider(definition: u64, capability: u64, contract: u64) -> ComponentDefinition {
    ComponentDefinition::new(ComponentDefinitionId::new(definition))
        .with_capability(Capability::new(CapabilityId::new(capability), CapabilityContractId::new(contract)))
}

fn consumer(definition: u64, requirement: u64, contract: u64) -> ComponentDefinition {
    ComponentDefinition::new(ComponentDefinitionId::new(definition))
        .with_requirement(Requirement::necessary(RequirementId::new(requirement), CapabilityContractId::new(contract)))
}

fn register(runtime: &mut KernelRuntime, definition: ComponentDefinition, instance: u64) -> Result<meta_system_kernel::TransitionOutcome, KernelError> {
    runtime.handle(KernelEvent::register_component(definition, ComponentInstanceId::new(instance)))
}

#[test]
fn registration_without_requirements_activates_at_once() {
    let mut runtime = KernelRuntime::new();
    let outcome = register(&mut runtime, provider(1, 10, 100), 1).unwrap();
    assert_eq!(outcome.transitions().len(), 2);
    assert_eq!(outcome.transitions()[0].previous(), None);
    assert_eq!(outcome.transitions()[0].current(), ResolutionState::Pending);
    assert_eq!(outcome.transitions()[1].previous(), Some(ResolutionState::Pending));
    assert_eq!(outcome.transitions()[1].current(), ResolutionState::Active);
    let graph = runtime.graph();
    assert_eq!(graph.instance(ComponentInstanceId::new(1)).unwrap().resolution(), ResolutionState::Active);
    let rt = graph.component_runtime(ComponentInstanceId::new(1)).unwrap();
    assert_eq!(rt.id(), ComponentRuntimeId::new(1));
    assert_eq!(graph.capability(CapabilityId::new(10)).unwrap().contract(), CapabilityContractId::new(100));
}

#[test]
fn unsatisfied_requirement_leaves_instance_pending_without_binding_or_runtime() {
    let mut runtime = KernelRuntime::new();
    let outcome = register(&mut runtime, consumer(1, 11, 100), 1).unwrap();
    assert_eq!(outcome.transitions().len(), 1);
    assert!(outcome.created_bindings().is_empty());
    let graph = runtime.graph();
    assert_eq!(graph.instance(ComponentInstanceId::new(1)).unwrap().resolution(), ResolutionState::Pending);
    assert!(graph.binding(RequirementId::new(11)).is_none());
    assert!(graph.component_runtime(ComponentInstanceId::new(1)).is_none());
    assert!(graph.requirement(RequirementId::new(11)).is_some());
}

#[test]
fn later_provider_activates_pending_consumer_with_binding() {
    let mut runtime = KernelRuntime::new();
    register(&mut runtime, consumer(1, 11, 100), 1).unwrap();
    let outcome = register(&mut runtime, provider(2, 20, 100), 2).unwrap();
    assert_eq!(outcome.transitions().len(), 3);
    assert_eq!(outcome.transitions()[1].instance_id(), ComponentInstanceId::new(2));
    assert_eq!(outcome.transitions()[2].instance_id(), ComponentInstanceId::new(1));
    assert_eq!(outcome.created_bindings().len(), 1);
    let binding = runtime.graph().binding(RequirementId::new(11)).unwrap().clone();
    assert_eq!(binding.capability_id(), CapabilityId::new(20));
    assert_eq!(binding.provider_id(), ComponentInstanceId::new(2));
    assert_eq!(runtime.graph().instance(ComponentInstanceId::new(1)).unwrap().resolution(), ResolutionState::Active);
    assert_eq!(runtime.graph().component_runtime(ComponentInstanceId::new(1)).unwrap().id(), ComponentRuntimeId::new(2));
}

#[test]
fn duplicate_instance_is_refused_and_changes_nothing() {
    let mut runtime = KernelRuntime::new();
    register(&mut runtime, provider(1, 10, 100), 1).unwrap();
    let error = register(&mut runtime, provider(2, 20, 200), 1).unwrap_err();
    assert_eq!(error, KernelError::DuplicateComponentInstance(ComponentInstanceId::new(1)));
    assert!(runtime.graph().definition(ComponentDefinitionId::new(2)).is_none());
    assert!(runtime.graph().capability(CapabilityId::new(20)).is_none());
}

#[test]
fn duplicate_definition_requirement_and_capability_are_refused() {
    let mut runtime = KernelRuntime::new();
    register(&mut runtime, provider(1, 10, 100), 1).unwrap();
    assert_eq!(register(&mut runtime, provider(1, 30, 300), 2).unwrap_err(),
        KernelError::DuplicateComponentDefinition(ComponentDefinitionId::new(1)));
    assert_eq!(register(&mut runtime, provider(3, 10, 300), 3).unwrap_err(),
        KernelError::DuplicateCapability(CapabilityId::new(10)));
    register(&mut runtime, consumer(4, 40, 100), 4).unwrap();
    assert_eq!(register(&mut runtime, consumer(5, 40, 100), 5).unwrap_err(),
        KernelError::DuplicateRequirement(RequirementId::new(40)));
}

#[test]
fn effects_need_a_living_active_owner() {
    let mut runtime = KernelRuntime::new();
    register(&mut runtime, consumer(1, 11, 100), 1).unwrap();
    register(&mut runtime, provider(2, 20, 200), 2).unwrap();
    let unknown = runtime.handle(KernelEvent::record_effect(Effect::new(EffectId::new(1), ComponentInstanceId::new(9))));
    assert_eq!(unknown.unwrap_err(), KernelError::UnknownComponentInstance(ComponentInstanceId::new(9)));
    let inactive = runtime.handle(KernelEvent::record_effect(Effect::new(EffectId::new(1), ComponentInstanceId::new(1))));
    assert_eq!(inactive.unwrap_err(), KernelError::InactiveEffectOwner(ComponentInstanceId::new(1)));
    let recorded = runtime.handle(KernelEvent::record_effect(Effect::new(EffectId::new(1), ComponentInstanceId::new(2)))).unwrap();
    assert!(recorded.transitions().is_empty());
    assert_eq!(runtime.graph().effect(EffectId::new(1)).unwrap().owner(), ComponentInstanceId::new(2));
    let duplicate = runtime.handle(KernelEvent::record_effect(Effect::new(EffectId::new(1), ComponentInstanceId::new(2))));
    assert_eq!(duplicate.unwrap_err(), KernelError::DuplicateEffect(EffectId::new(1)));
}

#[test]
fn unregistering_unknown_instance_is_refused() {
    let mut runtime = KernelRuntime::new();
    let error = runtime.handle(KernelEvent::unregister_component(ComponentInstanceId::new(7))).unwrap_err();
    assert_eq!(error, KernelError::UnknownComponentInstance(ComponentInstanceId::new(7)));
}

#[test]
fn unregistering_provider_returns_consumer_to_pending() {
    let mut runtime = KernelRuntime::new();
    register(&mut runtime, provider(2, 20, 100), 2).unwrap();
    register(&mut runtime, consumer(1, 11, 100), 1).unwrap();
    runtime.handle(KernelEvent::record_effect(Effect::new(EffectId::new(5), ComponentInstanceId::new(1)))).unwrap();
    runtime.handle(KernelEvent::record_effect(Effect::new(EffectId::new(6), ComponentInstanceId::new(2)))).unwrap();
    let outcome = runtime.handle(KernelEvent::unregister_component(ComponentInstanceId::new(2))).unwrap();
    assert_eq!(outcome.transitions().len(), 1);
    assert_eq!(outcome.transitions()[0].instance_id(), ComponentInstanceId::new(1));
    assert_eq!(outcome.transitions()[0].previous(), Some(ResolutionState::Active));
    assert_eq!(outcome.transitions()[0].current(), ResolutionState::Pending);
    let graph = runtime.graph();
    assert!(graph.instance(ComponentInstanceId::new(2)).is_none());
    assert!(graph.component_runtime(ComponentInstanceId::new(2)).is_none());
    assert!(graph.definition(ComponentDefinitionId::new(2)).is_none());
    assert!(graph.capability(CapabilityId::new(20)).is_none());
    assert_eq!(graph.instance(ComponentInstanceId::new(1)).unwrap().resolution(), ResolutionState::Pending);
    assert!(graph.binding(RequirementId::new(11)).is_none());
    assert!(graph.component_runtime(ComponentInstanceId::new(1)).is_none());
    assert!(graph.effect(EffectId::new(5)).is_none());
    assert!(graph.effect(EffectId::new(6)).is_none());
    assert!(graph.requirement(RequirementId::new(11)).is_some());
}

#[derive(Debug, Default)]
struct RefusingDriver {
    refuse_start: bool,
    refuse_stop: bool,
}

impl EventLoopDriver for RefusingDriver {
    fn start(&mut self, _instance_id: ComponentInstanceId, _runtime_id: ComponentRuntimeId) -> Result<(), DriverError> {
        if self.refuse_start { Err(DriverError::new("no start".to_string())) } else { Ok(()) }
    }

    fn advance(&mut self) -> Result<DriverProgress, DriverError> {
        Ok(DriverProgress::Idle)
    }

    fn stop(&mut self, _instance_id: ComponentInstanceId) -> Result<(), DriverError> {
        if self.refuse_stop { Err(DriverError::new("no stop".to_string())) } else { Ok(()) }
    }
}

#[test]
fn driver_start_failure_leaves_instance_pending() {
    let mut runtime = KernelRuntime::with_event_loop_driver(RefusingDriver { refuse_start: true, refuse_stop: false });
    let error = runtime.handle(KernelEvent::register_component(provider(1, 10, 100), ComponentInstanceId::new(1))).unwrap_err();
    assert_eq!(error, KernelError::DriverStart { instance_id: ComponentInstanceId::new(1), error: DriverError::new("no start".to_string()) });
    assert_eq!(runtime.graph().instance(ComponentInstanceId::new(1)).unwrap().resolution(), ResolutionState::Pending);
    assert!(runtime.graph().component_runtime(ComponentInstanceId::new(1)).is_none());
}

#[test]
fn driver_stop_failure_keeps_the_graph() {
    let mut runtime = KernelRuntime::with_event_loop_driver(RefusingDriver { refuse_start: false, refuse_stop: true });
    runtime.handle(KernelEvent::register_component(provider(1, 10, 100), ComponentInstanceId::new(1))).unwrap();
    let error = runtime.handle(KernelEvent::unregister_component(ComponentInstanceId::new(1))).unwrap_err();
    assert_eq!(error, KernelError::DriverStop { instance_id: ComponentInstanceId::new(1), error: DriverError::new("no stop".to_string()) });
    assert!(runtime.graph().instance(ComponentInstanceId::new(1)).is_some());
    assert!(runtime.graph().component_runtime(ComponentInstanceId::new(1)).is_some());
}

#[test]
fn facets_attach_to_existing_targets_with_matching_schema() {
    let mut graph = GraphState::new();
    let addon = AddonId::new(1);
    graph.register_context(Context::new(ContextId::new(1), ContextOwner::Addon(addon), ContextVisibility::Owner)).unwrap();
    assert_eq!(graph.register_context(Context::new(ContextId::new(1), ContextOwner::Addon(addon), ContextVisibility::Owner)).unwrap_err(),
        KernelError::DuplicateContext(ContextId::new(1)));
    assert_eq!(graph.register_context(Context::new(ContextId::new(2), ContextOwner::Addon(addon), ContextVisibility::Owner).within(ContextId::new(9))).unwrap_err(),
        KernelError::UnknownContext(ContextId::new(9)));
    graph.register_facet_schema(FacetSchema::new(FacetSchemaId::new(1), addon, FacetValueKind::Flag, GraphEntityKind::Context)).unwrap();
    let facet = Facet::new(FacetId::new(1), FacetSchemaId::new(1), ContextId::new(1), FacetTarget::Context(ContextId::new(1)), FacetValue::Flag(true));
    graph.attach_facet(facet).unwrap();
    let mismatch = Facet::new(FacetId::new(2), FacetSchemaId::new(1), ContextId::new(1), FacetTarget::Context(ContextId::new(1)), FacetValue::Integer(3));
    assert_eq!(graph.attach_facet(mismatch).unwrap_err(),
        KernelError::FacetValueMismatch { expected: FacetValueKind::Flag, actual: FacetValueKind::Integer });
    let missing = Facet::new(FacetId::new(3), FacetSchemaId::new(1), ContextId::new(1), FacetTarget::Context(ContextId::new(8)), FacetValue::Flag(false));
    assert_eq!(graph.attach_facet(missing).unwrap_err(), KernelError::UnknownFacetTarget);
    let wrong_kind = Facet::new(FacetId::new(4), FacetSchemaId::new(1), ContextId::new(1), FacetTarget::Effect(EffectId::new(1)), FacetValue::Flag(false));
    assert_eq!(graph.attach_facet(wrong_kind).unwrap_err(),
        KernelError::FacetTargetMismatch { expected: GraphEntityKind::Context, actual: GraphEntityKind::Effect });
}

#[test]
fn provider_chain_activates_in_dependency_order() {
    let mut runtime = KernelRuntime::new();
    register(&mut runtime, consumer(3, 31, 200), 3).unwrap();
    let middle = consumer(2, 21, 100).with_capability(Capability::new(CapabilityId::new(22), CapabilityContractId::new(200)));
    let outcome = register(&mut runtime, middle, 2).unwrap();
    assert_eq!(outcome.transitions().len(), 1);
    let outcome = register(&mut runtime, provider(1, 10, 100), 1).unwrap();
    let order: Vec<ComponentInstanceId> = outcome.transitions().iter().map(|t| t.instance_id()).collect();
    assert_eq!(order, vec![ComponentInstanceId::new(1), ComponentInstanceId::new(1), ComponentInstanceId::new(2), ComponentInstanceId::new(3)]);
    assert_eq!(outcome.created_bindings().len(), 2);
    let graph = runtime.graph();
    for (instance, runtime_id) in [(1u64, 1u64), (2, 2), (3, 3)] {
        assert_eq!(graph.instance(ComponentInstanceId::new(instance)).unwrap().resolution(), ResolutionState::Active);
        assert_eq!(graph.component_runtime(ComponentInstanceId::new(instance)).unwrap().id(), ComponentRuntimeId::new(runtime_id));
    }
    let first = graph.binding(RequirementId::new(21)).unwrap();
    assert_eq!(first.capability_id(), CapabilityId::new(10));
    assert_eq!(graph.capability(first.capability_id()).unwrap().contract(), CapabilityContractId::new(100));
    let second = graph.binding(RequirementId::new(31)).unwrap();
    assert_eq!(second.capability_id(), CapabilityId::new(22));
    assert_eq!(second.provider_id(), ComponentInstanceId::new(2));
}

#[test]
fn runtime_identity_is_not_reused_after_removal() {
    let mut runtime = KernelRuntime::new();
    register(&mut runtime, provider(1, 10, 100), 1).unwrap();
    assert_eq!(runtime.graph().component_runtime(ComponentInstanceId::new(1)).unwrap().id(), ComponentRuntimeId::new(1));
    runtime.handle(KernelEvent::unregister_component(ComponentInstanceId::new(1))).unwrap();
    assert!(runtime.graph().component_runtime(ComponentInstanceId::new(1)).is_none());
    register(&mut runtime, provider(1, 10, 100), 1).unwrap();
    assert_eq!(runtime.graph().component_runtime(ComponentInstanceId::new(1)).unwrap().id(), ComponentRuntimeId::new(2));
    register(&mut runtime, provider(2, 20, 200), 2).unwrap();
    assert_eq!(runtime.graph().component_runtime(ComponentInstanceId::new(2)).unwrap().id(), ComponentRuntimeId::new(3));
}

#[test]
fn created_bindings_are_in_place_and_every_activation_is_reported() {
    let mut runtime = KernelRuntime::new();
    register(&mut runtime, consumer(3, 31, 200), 3).unwrap();
    let middle = consumer(2, 21, 100).with_capability(Capability::new(CapabilityId::new(22), CapabilityContractId::new(200)));
    register(&mut runtime, middle, 2).unwrap();
    let outcome = register(&mut runtime, provider(1, 10, 100), 1).unwrap();
    let graph = runtime.graph();
    let created = outcome.created_bindings();
    assert_eq!(created.len(), 2);
    assert_ne!(created[0].requirement_id(), created[1].requirement_id());
    for binding in created {
        assert_eq!(graph.binding(binding.requirement_id()).unwrap(), binding);
    }
    for instance in [1u64, 2, 3] {
        let id = ComponentInstanceId::new(instance);
        assert!(outcome.transitions()[1..].iter().any(|t| t.instance_id() == id && t.current() == ResolutionState::Active));
    }
}

#[test]
fn every_active_instance_keeps_its_requirements_bound() {
    let mut runtime = KernelRuntime::new();
    register(&mut runtime, provider(1, 10, 100), 1).unwrap();
    register(&mut runtime, provider(2, 20, 200), 2).unwrap();
    register(&mut runtime, consumer(3, 31, 100), 3).unwrap();
    register(&mut runtime, consumer(4, 41, 200), 4).unwrap();
    runtime.handle(KernelEvent::unregister_component(ComponentInstanceId::new(1))).unwrap();
    let graph = runtime.graph();
    assert_eq!(graph.instance(ComponentInstanceId::new(3)).unwrap().resolution(), ResolutionState::Pending);
    assert!(graph.binding(RequirementId::new(31)).is_none());
    assert_eq!(graph.instance(ComponentInstanceId::new(4)).unwrap().resolution(), ResolutionState::Active);
    let kept = graph.binding(RequirementId::new(41)).unwrap();
    assert_eq!(kept.requirement_id(), RequirementId::new(41));
    assert_eq!(kept.provider_id(), ComponentInstanceId::new(2));
    let capability = graph.capability(kept.capability_id()).unwrap();
    assert_eq!(capability.contract(), graph.requirement(RequirementId::new(41)).unwrap().contract());
    assert!(graph.instance(kept.provider_id()).is_some());
}
