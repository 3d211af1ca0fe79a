use meta_system_kernel::{
    AddonId, Capability, CapabilityContractId, CapabilityId, ComponentDefinition, ComponentDefinitionId, ComponentInstanceId,
    ComponentSource, DeterministicMaterializer, HookOrder, KernelError, KernelRuntime, LoadId, LoadPhase, LoadRequest, Loader,
    LoaderDecision, LoaderError, LoaderEvent, LoaderHook, LoaderProposal, ResolutionState,
};

fn definition() -> ComponentDefinition {
    ComponentDefinition::new(ComponentDefinitionId::new(1))
        .with_capability(Capability::new(CapabilityId::new(10), CapabilityContractId::new(100)))
}

fn request(id: u64, instance: u64) -> LoadRequest {
    LoadRequest::new(LoadId::new(id), ComponentSource::new("component://editor".to_string()), ComponentInstanceId::new(instance))
}

#[test]
fn component_source_is_opaque_text() {
    let source = ComponentSource::new("component://editor".to_string());
    assert_eq!(source.as_str(), "component://editor");
}

#[test]
fn complete_lifecycle_registers_the_inspected_definition() {
    let mut runtime = KernelRuntime::new();
    let mut loader = Loader::new(DeterministicMaterializer::new(definition()));
    let id = LoadId::new(1);
    let steps = [
        (LoaderEvent::Declare(request(1, 5)), None, LoadPhase::Declared),
        (LoaderEvent::Locate(id), Some(LoadPhase::Declared), LoadPhase::Located),
        (LoaderEvent::Materialize(id), Some(LoadPhase::Located), LoadPhase::Materialized),
        (LoaderEvent::Inspect(id), Some(LoadPhase::Materialized), LoadPhase::Inspected),
        (LoaderEvent::Admit(id), Some(LoadPhase::Inspected), LoadPhase::Admitted),
        (LoaderEvent::Register(id), Some(LoadPhase::Admitted), LoadPhase::Registered),
        (LoaderEvent::MarkReady(id), Some(LoadPhase::Registered), LoadPhase::Ready),
    ];
    for (event, previous, current) in steps {
        let transition = loader.handle(event, &mut runtime).unwrap().transition().unwrap();
        assert_eq!(transition.id(), id);
        assert_eq!(transition.previous(), previous);
        assert_eq!(transition.current(), current);
    }
    let record = loader.load(id).unwrap();
    assert_eq!(record.phase(), LoadPhase::Ready);
    assert_eq!(record.instance(), ComponentInstanceId::new(5));
    assert_eq!(record.definition().unwrap().id(), ComponentDefinitionId::new(1));
    let graph = runtime.graph();
    assert_eq!(graph.definition(ComponentDefinitionId::new(1)).unwrap().capabilities()[0].id(), CapabilityId::new(10));
    assert_eq!(graph.instance(ComponentInstanceId::new(5)).unwrap().resolution(), ResolutionState::Active);
}

#[test]
fn phases_cannot_be_skipped() {
    let mut runtime = KernelRuntime::new();
    let mut loader = Loader::new(DeterministicMaterializer::new(definition()));
    loader.handle(LoaderEvent::Declare(request(1, 5)), &mut runtime).unwrap();
    let error = loader.handle(LoaderEvent::Inspect(LoadId::new(1)), &mut runtime).unwrap_err();
    assert_eq!(error, LoaderError::InvalidTransition { expected: LoadPhase::Materialized, actual: LoadPhase::Declared });
    let error = loader.handle(LoaderEvent::Register(LoadId::new(1)), &mut runtime).unwrap_err();
    assert_eq!(error, LoaderError::InvalidTransition { expected: LoadPhase::Admitted, actual: LoadPhase::Declared });
    assert_eq!(loader.load(LoadId::new(1)).unwrap().phase(), LoadPhase::Declared);
    assert!(runtime.graph().instance(ComponentInstanceId::new(5)).is_none());
}

#[test]
fn duplicate_and_unknown_lifecycles_are_refused() {
    let mut runtime = KernelRuntime::new();
    let mut loader = Loader::new(DeterministicMaterializer::new(definition()));
    loader.handle(LoaderEvent::Declare(request(1, 5)), &mut runtime).unwrap();
    assert_eq!(loader.handle(LoaderEvent::Declare(request(1, 6)), &mut runtime).unwrap_err(), LoaderError::DuplicateLoad(LoadId::new(1)));
    assert_eq!(loader.handle(LoaderEvent::Locate(LoadId::new(2)), &mut runtime).unwrap_err(), LoaderError::UnknownLoad(LoadId::new(2)));
    assert!(loader.load(LoadId::new(2)).is_none());
}

#[test]
fn host_rejection_ends_the_lifecycle() {
    let mut runtime = KernelRuntime::new();
    let mut loader = Loader::new(DeterministicMaterializer::new(definition()));
    let id = LoadId::new(1);
    for event in [LoaderEvent::Declare(request(1, 5)), LoaderEvent::Locate(id), LoaderEvent::Materialize(id), LoaderEvent::Inspect(id)] {
        loader.handle(event, &mut runtime).unwrap();
    }
    let transition = loader.handle(LoaderEvent::Reject { id, reason: "not wanted".to_string() }, &mut runtime).unwrap().transition().unwrap();
    assert_eq!(transition.current(), LoadPhase::Rejected);
    let rejection = loader.load(id).unwrap().rejection().unwrap();
    assert_eq!(rejection.addon(), None);
    assert_eq!(rejection.reason(), "not wanted");
    let error = loader.handle(LoaderEvent::Admit(id), &mut runtime).unwrap_err();
    assert_eq!(error, LoaderError::InvalidTransition { expected: LoadPhase::Inspected, actual: LoadPhase::Rejected });
}

#[derive(Debug)]
struct Veto;

impl LoaderHook for Veto {
    fn addon(&self) -> AddonId {
        AddonId::new(4)
    }

    fn order(&self) -> HookOrder {
        HookOrder::new(1)
    }

    fn evaluate(&self, proposal: LoaderProposal<'_>) -> LoaderDecision {
        if proposal.definition().capabilities().is_empty() {
            LoaderDecision::Allow
        } else {
            LoaderDecision::Reject(format!("load {:?} offers Capabilities", proposal.load()))
        }
    }
}

#[test]
fn active_hook_rejects_admission() {
    let mut runtime = KernelRuntime::new();
    let mut loader = Loader::with_hooks(DeterministicMaterializer::new(definition()), vec![Box::new(Veto) as Box<dyn LoaderHook>]);
    let id = LoadId::new(1);
    for event in [LoaderEvent::Declare(request(1, 5)), LoaderEvent::Locate(id), LoaderEvent::Materialize(id), LoaderEvent::Inspect(id)] {
        loader.handle(event, &mut runtime).unwrap();
    }
    let transition = loader.handle(LoaderEvent::Admit(id), &mut runtime).unwrap().transition().unwrap();
    assert_eq!(transition.current(), LoadPhase::Rejected);
    let rejection = loader.load(id).unwrap().rejection().unwrap();
    assert_eq!(rejection.addon(), Some(AddonId::new(4)));
    assert_eq!(rejection.reason(), "load LoadId(1) offers Capabilities");
}

#[test]
fn kernel_refusal_is_reported_and_keeps_the_phase() {
    let mut runtime = KernelRuntime::new();
    let mut first = Loader::new(DeterministicMaterializer::new(definition()));
    let mut second = Loader::new(DeterministicMaterializer::new(definition()));
    let id = LoadId::new(1);
    for loader in [&mut first, &mut second] {
        for event in [LoaderEvent::Declare(request(1, 5)), LoaderEvent::Locate(id), LoaderEvent::Materialize(id),
            LoaderEvent::Inspect(id), LoaderEvent::Admit(id)] {
            loader.handle(event, &mut runtime).unwrap();
        }
    }
    first.handle(LoaderEvent::Register(id), &mut runtime).unwrap();
    let error = second.handle(LoaderEvent::Register(id), &mut runtime).unwrap_err();
    assert_eq!(error, LoaderError::Kernel(KernelError::DuplicateComponentDefinition(ComponentDefinitionId::new(1))));
    assert_eq!(second.load(id).unwrap().phase(), LoadPhase::Admitted);
}

struct UnreachableSource;

impl meta_system_kernel::ComponentMaterializer for UnreachableSource {
    fn locate(&mut self, _id: LoadId, _source: &ComponentSource) -> Result<(), meta_system_kernel::MaterializerError> {
        Err(meta_system_kernel::MaterializerError::new("source not found".to_string()))
    }

    fn materialize(&mut self, _id: LoadId) -> Result<(), meta_system_kernel::MaterializerError> {
        Ok(())
    }

    fn inspect(&mut self, _id: LoadId) -> Result<ComponentDefinition, meta_system_kernel::MaterializerError> {
        Ok(definition())
    }
}

#[test]
fn materializer_failure_keeps_the_phase() {
    let mut runtime = KernelRuntime::new();
    let mut loader = Loader::new(UnreachableSource);
    loader.handle(LoaderEvent::Declare(request(1, 5)), &mut runtime).unwrap();
    let error = loader.handle(LoaderEvent::Locate(LoadId::new(1)), &mut runtime).unwrap_err();
    assert_eq!(error, LoaderError::Materializer {
        phase: LoadPhase::Located,
        error: meta_system_kernel::MaterializerError::new("source not found".to_string()),
    });
    assert_eq!(loader.load(LoadId::new(1)).unwrap().phase(), LoadPhase::Declared);
}

#[test]
fn rejected_lifecycle_keeps_its_reason_whatever_follows() {
    let mut runtime = KernelRuntime::new();
    let mut loader = Loader::new(DeterministicMaterializer::new(definition()));
    let id = LoadId::new(1);
    for event in [LoaderEvent::Declare(request(1, 5)), LoaderEvent::Locate(id), LoaderEvent::Materialize(id), LoaderEvent::Inspect(id)] {
        loader.handle(event, &mut runtime).unwrap();
    }
    loader.handle(LoaderEvent::Reject { id, reason: "first".to_string() }, &mut runtime).unwrap();
    assert!(loader.handle(LoaderEvent::Reject { id, reason: "second".to_string() }, &mut runtime).is_err());
    assert!(loader.handle(LoaderEvent::Register(id), &mut runtime).is_err());
    assert!(loader.handle(LoaderEvent::MarkReady(id), &mut runtime).is_err());
    assert!(loader.handle(LoaderEvent::Declare(request(1, 6)), &mut runtime).is_err());
    let record = loader.load(id).unwrap();
    assert_eq!(record.phase(), LoadPhase::Rejected);
    assert_eq!(record.rejection().unwrap().reason(), "first");
    assert!(record.definition().is_some());
}
