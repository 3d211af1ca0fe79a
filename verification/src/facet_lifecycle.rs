//! Validation and storage for Contexts, Facet Schemas, Facets and Effects.
use vstd::prelude::*;
use crate::error::KernelError;
use crate::graph::GraphState;
use crate::identity::ComponentRuntimeId;
use crate::keyed::Keyed;
use crate::system::{Context, ContextOwner, Effect, Facet, FacetSchema, FacetTarget};

verus! {

/// Some living Component Runtime carries the identity `id`.
pub open spec fn runtime_exists(g: GraphState, id: ComponentRuntimeId) -> bool {
    exists|k: u64| #[trigger] g.runtimes@.contains_key(k) && g.runtimes@[k].id == id
}

/// The entity referenced by a Facet target exists in the graph.
pub open spec fn target_exists(g: GraphState, target: FacetTarget) -> bool {
    match target {
        FacetTarget::ComponentDefinition(id) => g.definitions@.contains_key(id.0),
        FacetTarget::ComponentInstance(id) => g.instances@.contains_key(id.0),
        FacetTarget::Requirement(id) => g.requirements@.contains_key(id.0),
        FacetTarget::Capability(id) => g.capabilities@.contains_key(id.0),
        FacetTarget::ComponentRuntime(id) => runtime_exists(g, id),
        FacetTarget::Effect(id) => g.effects@.contains_key(id.0),
        FacetTarget::Context(id) => g.contexts@.contains_key(id.0),
    }
}

/// The error that rejects a Context registration, if any.
pub open spec fn context_error(g: GraphState, context: Context) -> Option<KernelError> {
    if g.contexts@.contains_key(context.id.0) {
        Some(KernelError::DuplicateContext(context.id))
    } else if context.parent matches Some(p) && !g.contexts@.contains_key(p.0) {
        Some(KernelError::UnknownContext(context.parent->0))
    } else if context.owner matches ContextOwner::Component(o) && !g.instances@.contains_key(o.0) {
        Some(KernelError::UnknownComponentInstance(context.owner->Component_0))
    } else {
        None
    }
}

/// The error that rejects a Facet attachment, if any.
pub open spec fn facet_error(g: GraphState, facet: Facet) -> Option<KernelError> {
    if g.facets@.contains_key(facet.id.0) {
        Some(KernelError::DuplicateFacet(facet.id))
    } else if !g.facet_schemas@.contains_key(facet.schema.0) {
        Some(KernelError::UnknownFacetSchema(facet.schema))
    } else if !g.contexts@.contains_key(facet.context.0) {
        Some(KernelError::UnknownContext(facet.context))
    } else if g.facet_schemas@[facet.schema.0].value_kind != facet.value.spec_kind() {
        Some(KernelError::FacetValueMismatch {
            expected: g.facet_schemas@[facet.schema.0].value_kind,
            actual: facet.value.spec_kind(),
        })
    } else if g.facet_schemas@[facet.schema.0].target_kind != facet.target.spec_kind() {
        Some(KernelError::FacetTargetMismatch {
            expected: g.facet_schemas@[facet.schema.0].target_kind,
            actual: facet.target.spec_kind(),
        })
    } else if !target_exists(g, facet.target) {
        Some(KernelError::UnknownFacetTarget)
    } else {
        None
    }
}

/// The error that rejects an Effect, if any.
pub open spec fn effect_error(g: GraphState, effect: Effect) -> Option<KernelError> {
    if g.effects@.contains_key(effect.id.0) {
        Some(KernelError::DuplicateEffect(effect.id))
    } else if !g.instances@.contains_key(effect.owner.0) {
        Some(KernelError::UnknownComponentInstance(effect.owner))
    } else if !g.runtimes@.contains_key(effect.owner.0) {
        Some(KernelError::InactiveEffectOwner(effect.owner))
    } else {
        None
    }
}

impl GraphState {
    /// Every table other than `contexts` is unchanged.
    pub open spec fn same_except_contexts(&self, old: GraphState) -> bool {
        &&& self.definitions@ == old.definitions@
        &&& self.instances@ == old.instances@
        &&& self.requirements@ == old.requirements@
        &&& self.capabilities@ == old.capabilities@
        &&& self.bindings@ == old.bindings@
        &&& self.runtimes@ == old.runtimes@
        &&& self.effects@ == old.effects@
        &&& self.facet_schemas@ == old.facet_schemas@
        &&& self.facets@ == old.facets@
        &&& self.rooms@ == old.rooms@
        &&& self.subscriptions@ == old.subscriptions@
    }

    /// Every table other than `facet_schemas` is unchanged.
    pub open spec fn same_except_facet_schemas(&self, old: GraphState) -> bool {
        &&& self.definitions@ == old.definitions@
        &&& self.instances@ == old.instances@
        &&& self.requirements@ == old.requirements@
        &&& self.capabilities@ == old.capabilities@
        &&& self.bindings@ == old.bindings@
        &&& self.runtimes@ == old.runtimes@
        &&& self.effects@ == old.effects@
        &&& self.contexts@ == old.contexts@
        &&& self.facets@ == old.facets@
        &&& self.rooms@ == old.rooms@
        &&& self.subscriptions@ == old.subscriptions@
    }

    /// Every table other than `facets` is unchanged.
    pub open spec fn same_except_facets(&self, old: GraphState) -> bool {
        &&& self.definitions@ == old.definitions@
        &&& self.instances@ == old.instances@
        &&& self.requirements@ == old.requirements@
        &&& self.capabilities@ == old.capabilities@
        &&& self.bindings@ == old.bindings@
        &&& self.runtimes@ == old.runtimes@
        &&& self.effects@ == old.effects@
        &&& self.contexts@ == old.contexts@
        &&& self.facet_schemas@ == old.facet_schemas@
        &&& self.rooms@ == old.rooms@
        &&& self.subscriptions@ == old.subscriptions@
    }

    /// Every table other than `effects` is unchanged.
    pub open spec fn same_except_effects(&self, old: GraphState) -> bool {
        &&& self.definitions@ == old.definitions@
        &&& self.instances@ == old.instances@
        &&& self.requirements@ == old.requirements@
        &&& self.capabilities@ == old.capabilities@
        &&& self.bindings@ == old.bindings@
        &&& self.runtimes@ == old.runtimes@
        &&& self.contexts@ == old.contexts@
        &&& self.facet_schemas@ == old.facet_schemas@
        &&& self.facets@ == old.facets@
        &&& self.rooms@ == old.rooms@
        &&& self.subscriptions@ == old.subscriptions@
    }

    /// Registers a structural Context after validating its owner and parent.
    pub fn register_context(&mut self, context: Context) -> (r: Result<(), KernelError>)
        requires
            old(self).wf(),
        ensures
            final(self).wf(),
            match context_error(*old(self), context) {
                Some(e) => r == Err::<(), KernelError>(e) && *final(self) == *old(self),
                None => r is Ok && final(self).contexts@ == old(self).contexts@.insert(context.id.0, context)
                    && final(self).same_except_contexts(*old(self)),
            },
    {
        if self.contexts.contains_key(context.id.0) {
            return Err(KernelError::DuplicateContext(context.id));
        }
        if let Some(parent) = context.parent {
            if !self.contexts.contains_key(parent.0) {
                return Err(KernelError::UnknownContext(parent));
            }
        }
        if let ContextOwner::Component(owner_id) = context.owner {
            if !self.instances.contains_key(owner_id.0) {
                return Err(KernelError::UnknownComponentInstance(owner_id));
            }
        }
        self.contexts.insert(context);
        Ok(())
    }

    /// Registers one Addon-owned Facet Schema.
    pub fn register_facet_schema(&mut self, schema: FacetSchema) -> (r: Result<(), KernelError>)
        requires
            old(self).wf(),
        ensures
            final(self).wf(),
            old(self).facet_schemas@.contains_key(schema.id.0) ==> r == Err::<(), KernelError>(KernelError::DuplicateFacetSchema(schema.id))
                && *final(self) == *old(self),
            !old(self).facet_schemas@.contains_key(schema.id.0) ==> r is Ok
                && final(self).facet_schemas@ == old(self).facet_schemas@.insert(schema.id.0, schema)
                && final(self).same_except_facet_schemas(*old(self)),
    {
        if self.facet_schemas.contains_key(schema.id.0) {
            return Err(KernelError::DuplicateFacetSchema(schema.id));
        }
        self.facet_schemas.insert(schema);
        Ok(())
    }

    /// Reports whether some living Component Runtime carries `id`.
    pub fn runtime_exists(&self, id: ComponentRuntimeId) -> (r: bool)
        requires
            self.wf(),
        ensures
            r == runtime_exists(*self, id),
    {
        proof {
            self.runtimes.lemma_view();
        }
        let mut i: usize = 0;
        while i < self.runtimes.len()
            invariant
                self.wf(),
                i <= self.runtimes.seq().len(),
                forall|j: int| 0 <= j < i ==> #[trigger] self.runtimes.seq()[j].id != id,
            decreases self.runtimes.seq().len() - i,
        {
            if self.runtimes.at(i).id == id {
                proof {
                    self.runtimes.lemma_view();
                    let k = self.runtimes.seq()[i as int].spec_key();
                    assert(self.runtimes@.contains_key(k));
                }
                return true;
            }
            i += 1;
        }
        proof {
            self.runtimes.lemma_view();
            if runtime_exists(*self, id) {
                let k = choose|k: u64| #[trigger] self.runtimes@.contains_key(k) && self.runtimes@[k].id == id;
                let j = choose|j: int| 0 <= j < self.runtimes.seq().len() && self.runtimes.seq()[j].spec_key() == k;
                assert(self.runtimes.seq()[j] == self.runtimes@[k]);
            }
        }
        false
    }

    /// Reports whether a strongly typed Facet target exists in this graph.
    pub fn facet_target_exists(&self, target: FacetTarget) -> (r: bool)
        requires
            self.wf(),
        ensures
            r == target_exists(*self, target),
    {
        match target {
            FacetTarget::ComponentDefinition(id) => self.definitions.contains_key(id.0),
            FacetTarget::ComponentInstance(id) => self.instances.contains_key(id.0),
            FacetTarget::Requirement(id) => self.requirements.contains_key(id.0),
            FacetTarget::Capability(id) => self.capabilities.contains_key(id.0),
            FacetTarget::ComponentRuntime(id) => self.runtime_exists(id),
            FacetTarget::Effect(id) => self.effects.contains_key(id.0),
            FacetTarget::Context(id) => self.contexts.contains_key(id.0),
        }
    }

    /// Validates and attaches one typed Facet to an existing eligible entity.
    pub fn attach_facet(&mut self, facet: Facet) -> (r: Result<(), KernelError>)
        requires
            old(self).wf(),
        ensures
            final(self).wf(),
            match facet_error(*old(self), facet) {
                Some(e) => r == Err::<(), KernelError>(e) && *final(self) == *old(self),
                None => r is Ok && final(self).facets@ == old(self).facets@.insert(facet.id.0, facet)
                    && final(self).same_except_facets(*old(self)),
            },
    {
        if self.facets.contains_key(facet.id.0) {
            return Err(KernelError::DuplicateFacet(facet.id));
        }
        let schema_id = facet.schema;
        let schema = match self.facet_schemas.get(schema_id.0) {
            Some(schema) => *schema,
            None => {
                return Err(KernelError::UnknownFacetSchema(schema_id));
            },
        };
        if !self.contexts.contains_key(facet.context.0) {
            return Err(KernelError::UnknownContext(facet.context));
        }
        if schema.value_kind != facet.value.kind() {
            return Err(KernelError::FacetValueMismatch { expected: schema.value_kind, actual: facet.value.kind() });
        }
        if schema.target_kind != facet.target.kind() {
            return Err(KernelError::FacetTargetMismatch { expected: schema.target_kind, actual: facet.target.kind() });
        }
        if !self.facet_target_exists(facet.target) {
            return Err(KernelError::UnknownFacetTarget);
        }
        self.facets.insert(facet);
        Ok(())
    }

    /// Records one living Effect owned by an Active Component Instance.
    pub fn record_effect(&mut self, effect: Effect) -> (r: Result<(), KernelError>)
        requires
            old(self).wf(),
        ensures
            final(self).wf(),
            match effect_error(*old(self), effect) {
                Some(e) => r == Err::<(), KernelError>(e) && *final(self) == *old(self),
                None => r is Ok && final(self).effects@ == old(self).effects@.insert(effect.id.0, effect)
                    && final(self).same_except_effects(*old(self)),
            },
    {
        if self.effects.contains_key(effect.id.0) {
            return Err(KernelError::DuplicateEffect(effect.id));
        }
        if !self.instances.contains_key(effect.owner.0) {
            return Err(KernelError::UnknownComponentInstance(effect.owner));
        }
        if !self.runtimes.contains_key(effect.owner.0) {
            return Err(KernelError::InactiveEffectOwner(effect.owner));
        }
        self.effects.insert(effect);
        Ok(())
    }
}

} // verus!
