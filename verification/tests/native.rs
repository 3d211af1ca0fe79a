use meta_system_kernel::native::{
    NATIVE_COMPONENT_ABI_VERSION, NativeCapabilityDescriptor, NativeComponentDescriptor, NativeRequirementDescriptor,
    check_abi_header, check_descriptor_array, complete_definition,
};
use meta_system_kernel::{CapabilityContractId, CapabilityId, ComponentDefinitionId, RequirementId};

#[test]
fn static_descriptor_is_copied_into_complete_definition() {
    let descriptor = NativeComponentDescriptor {
        abi_version: NATIVE_COMPONENT_ABI_VERSION,
        reserved: 0,
        definition_id: 3,
        requirements: vec![NativeRequirementDescriptor { id: 1, contract: 10 }],
        capabilities: vec![NativeCapabilityDescriptor { id: 2, contract: 20 }],
    };

    let definition = complete_definition(descriptor).expect("valid static descriptor is copied");

    assert_eq!(definition.id(), ComponentDefinitionId::new(3));
    assert_eq!(definition.requirements()[0].id(), RequirementId::new(1));
    assert_eq!(definition.capabilities()[0].id(), CapabilityId::new(2));
}

#[test]
fn descriptor_contracts_are_preserved_in_order() {
    let descriptor = NativeComponentDescriptor {
        abi_version: 1,
        reserved: 0,
        definition_id: 8,
        requirements: vec![NativeRequirementDescriptor { id: 1, contract: 10 }, NativeRequirementDescriptor { id: 2, contract: 11 }],
        capabilities: vec![],
    };
    let definition = complete_definition(descriptor).unwrap();
    assert_eq!(definition.requirements().len(), 2);
    assert_eq!(definition.requirements()[1].contract(), CapabilityContractId::new(11));
    assert!(definition.capabilities().is_empty());
    assert!(definition.routing().rooms().is_empty());
}

#[test]
fn unsupported_abi_is_rejected() {
    let descriptor = NativeComponentDescriptor { abi_version: 2, reserved: 0, definition_id: 3, requirements: vec![], capabilities: vec![] };
    let error = complete_definition(descriptor).unwrap_err();
    assert_eq!(error.message(), "native Component uses an unsupported ABI version");
    assert!(check_abi_header(1, 1).is_err());
    assert!(check_abi_header(1, 0).is_ok());
}

#[test]
fn descriptor_arrays_are_checked_before_reading() {
    assert!(check_descriptor_array(0, 0, 16, 8).is_ok());
    assert_eq!(check_descriptor_array(0, 1, 16, 8).unwrap_err().message(), "native descriptor array pointer is invalid");
    assert_eq!(check_descriptor_array(12, 1, 16, 8).unwrap_err().message(), "native descriptor array pointer is invalid");
    assert_eq!(check_descriptor_array(16, usize::MAX, 16, 8).unwrap_err().message(), "native descriptor array is too large");
    assert!(check_descriptor_array(16, 2, 16, 8).is_ok());
    assert_eq!(check_descriptor_array(16, 3, 0, 1).unwrap_err().message(), "native descriptor array pointer is invalid");
}
