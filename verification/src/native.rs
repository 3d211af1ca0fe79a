//! Versioned transfer descriptors of trusted native Components and their validation.
use vstd::prelude::*;
use crate::declaration::{ComponentDefinition, MailboxPolicy, DefinitionView};
use crate::identity::{CapabilityContractId, CapabilityId, ComponentDefinitionId, RequirementId};
use crate::loader::MaterializerError;
use crate::system::{Capability, Requirement};

verus! {

/// Native Component ABI version implemented by this host.
pub const NATIVE_COMPONENT_ABI_VERSION: u32 = 1;

/// Requirement contribution returned by a native Component.
#[derive(Debug, Clone, Copy, PartialEq, Eq, Structural)]
pub struct NativeRequirementDescriptor {
    /// Stable Requirement identity.
    pub id: u64,
    /// Capability Contract requested by the Requirement.
    pub contract: u64,
}

/// Capability contribution returned by a native Component.
#[derive(Debug, Clone, Copy, PartialEq, Eq, Structural)]
pub struct NativeCapabilityDescriptor {
    /// Stable Capability identity.
    pub id: u64,
    /// Capability Contract implemented by the Capability.
    pub contract: u64,
}

/// Complete transfer descriptor of ABI v1, with its arrays already copied out of the library.
#[derive(Debug, Clone, PartialEq, Eq)]
pub struct NativeComponentDescriptor {
    /// ABI version, required to equal [`NATIVE_COMPONENT_ABI_VERSION`].
    pub abi_version: u32,
    /// Reserved field required to be zero in ABI v1.
    pub reserved: u32,
    /// Stable Component Definition identity.
    pub definition_id: u64,
    /// Requirement contributions in library order.
    pub requirements: Vec<NativeRequirementDescriptor>,
    /// Capability contributions in library order.
    pub capabilities: Vec<NativeCapabilityDescriptor>,
}

/// The header announces the ABI this host implements.
pub open spec fn supported_header(abi_version: u32, reserved: u32) -> bool {
    abi_version == NATIVE_COMPONENT_ABI_VERSION && reserved == 0
}

/// The byte length of an announced array does not fit the address space.
pub open spec fn array_too_large(length: usize, item_size: usize) -> bool {
    length * item_size > isize::MAX
}

/// The announced array address cannot hold items of the given alignment, or the array has no bytes.
pub open spec fn array_address_invalid(address: usize, length: usize, item_size: usize, item_align: usize) -> bool {
    address == 0 || address % item_align != 0 || length * item_size == 0
}

/// The Requirements contributed by descriptors, in order.
pub open spec fn native_requirements(items: Seq<NativeRequirementDescriptor>) -> Seq<Requirement> {
    items.map_values(|d: NativeRequirementDescriptor| Requirement { id: RequirementId(d.id), contract: CapabilityContractId(d.contract) })
}

/// The Capabilities contributed by descriptors, in order.
pub open spec fn native_capabilities(items: Seq<NativeCapabilityDescriptor>) -> Seq<Capability> {
    items.map_values(|d: NativeCapabilityDescriptor| Capability { id: CapabilityId(d.id), contract: CapabilityContractId(d.contract) })
}

/// The Definition a native Component contributes: its identity, Requirements and Capabilities, with no routing.
pub open spec fn native_definition(d: ComponentDefinition, definition_id: u64, requirements: Seq<NativeRequirementDescriptor>, capabilities: Seq<NativeCapabilityDescriptor>) -> bool {
    &&& d.id == ComponentDefinitionId(definition_id)
    &&& d.requirements@ == native_requirements(requirements)
    &&& d.capabilities@ == native_capabilities(capabilities)
    &&& MailboxPolicy::spec_default(d.routing.mailbox_policy)
    &&& d.routing.rooms@.len() == 0
    &&& d.routing.subscriptions@.len() == 0
    &&& d.routing.emissions@.len() == 0
    &&& d.routing.broadcast_subscriptions@.len() == 0
}

/// Rejects a descriptor header of another ABI version or with a non-zero reserved field.
pub fn check_abi_header(abi_version: u32, reserved: u32) -> (r: Result<(), MaterializerError>)
    ensures
        r is Ok <==> supported_header(abi_version, reserved),
        r matches Err(e) ==> e.message@ == "native Component uses an unsupported ABI version"@,
{
    if abi_version != NATIVE_COMPONENT_ABI_VERSION || reserved != 0 {
        return Err(MaterializerError::new(String::from_str("native Component uses an unsupported ABI version")));
    }
    Ok(())
}

/// Checks the cheap structural facts of one announced descriptor array before it is read.
///
/// An empty array is accepted whatever its address; otherwise the byte length
/// must fit the address space and the address must be non-null and aligned.
pub fn check_descriptor_array(address: usize, length: usize, item_size: usize, item_align: usize) -> (r: Result<(), MaterializerError>)
    requires
        item_align > 0,
    ensures
        length == 0 ==> r is Ok,
        length != 0 && array_too_large(length, item_size) ==> (r matches Err(e) && e.message@ == "native descriptor array is too large"@),
        length != 0 && !array_too_large(length, item_size) && array_address_invalid(address, length, item_size, item_align)
            ==> (r matches Err(e) && e.message@ == "native descriptor array pointer is invalid"@),
        length != 0 && !array_too_large(length, item_size) && !array_address_invalid(address, length, item_size, item_align) ==> r is Ok,
{
    if length == 0 {
        return Ok(());
    }
    let byte_length = match length.checked_mul(item_size) {
        Some(bytes) => {
            if bytes > isize::MAX as usize {
                return Err(MaterializerError::new(String::from_str("native descriptor array is too large")));
            }
            bytes
        },
        None => {
            return Err(MaterializerError::new(String::from_str("native descriptor array is too large")));
        },
    };
    if address == 0 || address % item_align != 0 || byte_length == 0 {
        return Err(MaterializerError::new(String::from_str("native descriptor array pointer is invalid")));
    }
    Ok(())
}

/// Maps copied ABI contributions into one complete Component Definition.
pub fn assemble_definition(definition_id: u64, requirements: &[NativeRequirementDescriptor], capabilities: &[NativeCapabilityDescriptor]) -> (r: ComponentDefinition)
    ensures
        native_definition(r, definition_id, requirements@, capabilities@),
{
    let mut definition = ComponentDefinition::new(ComponentDefinitionId::new(definition_id));
    assert(native_requirements(requirements@.take(0)) =~= Seq::<Requirement>::empty());
    assert(native_capabilities(Seq::<NativeCapabilityDescriptor>::empty()) =~= Seq::<Capability>::empty());
    let mut i: usize = 0;
    while i < requirements.len()
        invariant
            i <= requirements@.len(),
            native_definition(definition, definition_id, requirements@.take(i as int), Seq::empty()),
        decreases requirements@.len() - i,
    {
        let item = requirements[i];
        definition = definition.with_requirement(Requirement::necessary(RequirementId::new(item.id), CapabilityContractId::new(item.contract)));
        proof {
            assert(requirements@.take(i as int + 1) =~= requirements@.take(i as int).push(item));
            assert(native_requirements(requirements@.take(i as int + 1)) =~= native_requirements(requirements@.take(i as int)).push(
                Requirement { id: RequirementId(item.id), contract: CapabilityContractId(item.contract) }));
        }
        i += 1;
    }
    assert(requirements@.take(requirements@.len() as int) =~= requirements@);
    assert(capabilities@.take(0) =~= Seq::<NativeCapabilityDescriptor>::empty());
    let mut j: usize = 0;
    while j < capabilities.len()
        invariant
            j <= capabilities@.len(),
            native_definition(definition, definition_id, requirements@, capabilities@.take(j as int)),
        decreases capabilities@.len() - j,
    {
        let item = capabilities[j];
        definition = definition.with_capability(Capability::new(CapabilityId::new(item.id), CapabilityContractId::new(item.contract)));
        proof {
            assert(capabilities@.take(j as int + 1) =~= capabilities@.take(j as int).push(item));
            assert(native_capabilities(capabilities@.take(j as int + 1)) =~= native_capabilities(capabilities@.take(j as int)).push(
                Capability { id: CapabilityId(item.id), contract: CapabilityContractId(item.contract) }));
        }
        j += 1;
    }
    assert(capabilities@.take(capabilities@.len() as int) =~= capabilities@);
    definition
}

/// Validates a copied ABI descriptor and builds its complete Component Definition.
pub fn complete_definition(descriptor: NativeComponentDescriptor) -> (r: Result<ComponentDefinition, MaterializerError>)
    ensures
        !supported_header(descriptor.abi_version, descriptor.reserved) ==> (r matches Err(e)
            && e.message@ == "native Component uses an unsupported ABI version"@),
        supported_header(descriptor.abi_version, descriptor.reserved) ==> (r matches Ok(d)
            && native_definition(d, descriptor.definition_id, descriptor.requirements@, descriptor.capabilities@)),
{
    match check_abi_header(descriptor.abi_version, descriptor.reserved) {
        Err(e) => {
            return Err(e);
        },
        Ok(()) => {},
    }
    Ok(assemble_definition(descriptor.definition_id, descriptor.requirements.as_slice(), descriptor.capabilities.as_slice()))
}

/// A native Definition carries the descriptors' contributions position by
/// position: Requirement `i` has the identity and contract of requirement
/// descriptor `i`, and Capability `i` the identity and the contract of
/// capability descriptor `i`; it declares no routing.
pub proof fn law_native_definition_copies_descriptors(
    d: ComponentDefinition,
    definition_id: u64,
    requirements: Seq<NativeRequirementDescriptor>,
    capabilities: Seq<NativeCapabilityDescriptor>,
)
    requires
        native_definition(d, definition_id, requirements, capabilities),
    ensures
        d.id.0 == definition_id,
        d.requirements@.len() == requirements.len(),
        forall|i: int| 0 <= i < requirements.len() ==> (#[trigger] d.requirements@[i]).id.0 == requirements[i].id
            && d.requirements@[i].contract.0 == requirements[i].contract,
        d.capabilities@.len() == capabilities.len(),
        forall|i: int| 0 <= i < capabilities.len() ==> (#[trigger] d.capabilities@[i]).id.0 == capabilities[i].id
            && d.capabilities@[i].contract.0 == capabilities[i].contract,
        d.routing.rooms@.len() == 0,
        d.routing.subscriptions@.len() == 0,
        d.routing.emissions@.len() == 0,
        d.routing.broadcast_subscriptions@.len() == 0,
{
}

} // verus!
