//! Entities: an identity and the record of what the entity is composed of.
use crate::aspect::Aspect;
use crate::bits::ids_of;
use crate::bits::IdSet;
use vstd::prelude::*;

verus! {

/// The offset that stands for "no component of this type".
pub const UNSET: usize = usize::MAX;

/// The record that a world keeps of one entity.
pub struct Entity {
    id: usize,
    c_offsets: Vec<usize>,
    aspect: Aspect,
    systems: IdSet,
}

/// What an entity record holds.
pub struct EntityView {
    /// The entity's id, which it keeps for its whole life.
    pub id: usize,
    /// For each component id, the slot of the entity's component in the bank
    /// of that id, or [`UNSET`]. Ids past the end have no component.
    pub offsets: Seq<usize>,
    /// The ids of the components that the entity holds.
    pub aspect: Set<usize>,
    /// The ids of the systems that the entity belongs to.
    pub systems: Set<usize>,
}

/// `offsets`, lengthened with [`UNSET`] to `len` entries if it was shorter.
pub open spec fn padded(offsets: Seq<usize>, len: nat) -> Seq<usize> {
    if offsets.len() >= len {
        offsets
    } else {
        offsets + Seq::new((len - offsets.len()) as nat, |i: int| UNSET)
    }
}

impl EntityView {
    /// The slot of the entity's component with id `component_id`, if it has
    /// one.
    pub open spec fn slot_of(self, component_id: usize) -> Option<usize> {
        if component_id < self.offsets.len() && self.offsets[component_id as int] != UNSET {
            Some(self.offsets[component_id as int])
        } else {
            None
        }
    }

    /// The aspect holds exactly the ids for which a slot is recorded, and the
    /// offsets can be counted in a `usize`.
    pub open spec fn wf(self) -> bool {
        &&& self.offsets.len() <= usize::MAX
        &&& forall|c: usize|
            #![trigger self.aspect.contains(c)]
            #![trigger self.slot_of(c)]
            self.aspect.contains(c) <==> self.slot_of(c).is_some()
    }

    /// The record after the component with id `component_id` was put in slot
    /// `slot`.
    pub open spec fn attached(self, component_id: usize, slot: usize) -> EntityView {
        EntityView {
            offsets: padded(self.offsets, (component_id + 1) as nat).update(component_id as int, slot),
            aspect: self.aspect.insert(component_id),
            ..self
        }
    }

    /// The record after the component with id `component_id` was taken away.
    pub open spec fn detached(self, component_id: usize) -> EntityView {
        EntityView {
            offsets: if component_id < self.offsets.len() {
                self.offsets.update(component_id as int, UNSET)
            } else {
                self.offsets
            },
            aspect: self.aspect.remove(component_id),
            ..self
        }
    }

    /// The record after the entity joined the system with id `system_id`.
    pub open spec fn joined(self, system_id: usize) -> EntityView {
        EntityView { systems: self.systems.insert(system_id), ..self }
    }

    /// The record after the entity left the system with id `system_id`.
    pub open spec fn left(self, system_id: usize) -> EntityView {
        EntityView { systems: self.systems.remove(system_id), ..self }
    }
}

impl View for Entity {
    type V = EntityView;

    closed spec fn view(&self) -> EntityView {
        EntityView { id: self.id, offsets: self.c_offsets@, aspect: self.aspect@, systems: ids_of(self.systems) }
    }
}

impl Entity {
    /// A record for the entity `id`, with no components and in no system.
    /// `prealloc` is the number of offsets to make room for.
    pub fn new(id: usize, prealloc: usize) -> (entity: Entity)
        ensures
            entity@.id == id,
            entity@.offsets == Seq::<usize>::empty(),
            entity@.aspect == Set::<usize>::empty(),
            entity@.systems == Set::<usize>::empty(),
            entity@.wf(),
    {
        Entity { id, c_offsets: Vec::with_capacity(prealloc), aspect: Aspect::new(), systems: IdSet::new() }
    }

    /// The entity's id.
    pub fn id(&self) -> (id: usize)
        ensures
            id == self@.id,
    {
        self.id
    }

    /// The offsets, indexed by component id.
    pub fn offsets(&self) -> (offsets: &Vec<usize>)
        ensures
            offsets@ == self@.offsets,
    {
        &self.c_offsets
    }

    /// The entity's aspect.
    pub fn aspect(&self) -> (aspect: &Aspect)
        ensures
            aspect@ == self@.aspect,
    {
        &self.aspect
    }

    /// The ids of the systems that the entity belongs to, each once, in no
    /// particular order.
    pub fn systems(&self) -> (ids: Vec<usize>)
        ensures
            ids@.no_duplicates(),
            ids@.to_set() == self@.systems,
    {
        self.systems.to_vec()
    }

    /// The slot of the component with id `component_id`, or `None` if the
    /// entity has no such component.
    pub fn slot(&self, component_id: usize) -> (slot: Option<usize>)
        ensures
            slot == self@.slot_of(component_id),
    {
        if component_id < self.c_offsets.len() && self.c_offsets[component_id] != UNSET {
            Some(self.c_offsets[component_id])
        } else {
            None
        }
    }

    /// Whether the entity holds a component with id `id`.
    pub fn has_component(&self, id: usize) -> (found: bool)
        ensures
            found == self@.aspect.contains(id),
    {
        self.aspect.contains(id)
    }

    /// Whether the entity belongs to the system with id `id`.
    pub fn in_system(&self, id: usize) -> (found: bool)
        ensures
            found == self@.systems.contains(id),
    {
        self.systems.contains(id)
    }

    /// The offsets, for writing.
    pub(crate) fn offsets_mut(&mut self) -> (offsets: &mut Vec<usize>)
        ensures
            offsets@ == old(self)@.offsets,
            final(self)@ == (EntityView { offsets: final(offsets)@, ..old(self)@ }),
    {
        &mut self.c_offsets
    }

    /// The aspect, for writing.
    pub(crate) fn aspect_mut(&mut self) -> (aspect: &mut Aspect)
        ensures
            aspect@ == old(self)@.aspect,
            final(self)@ == (EntityView { aspect: final(aspect)@, ..old(self)@ }),
    {
        &mut self.aspect
    }

    /// The set of systems, for writing.
    pub(crate) fn systems_mut(&mut self) -> (systems: &mut IdSet)
        ensures
            ids_of(*systems) == old(self)@.systems,
            final(self)@ == (EntityView { systems: ids_of(*final(systems)), ..old(self)@ }),
    {
        &mut self.systems
    }

    /// Records that the component with id `component_id` is in slot `slot`.
    pub(crate) fn attach(&mut self, component_id: usize, slot: usize)
        requires
            component_id < usize::MAX,
        ensures
            final(self)@ == old(self)@.attached(component_id, slot),
    {
        let offsets = self.offsets_mut();
        while offsets.len() <= component_id
            invariant
                component_id < usize::MAX,
                offsets@ == padded(old(self)@.offsets, offsets@.len()),
                offsets@.len() >= old(self)@.offsets.len(),
                offsets@.len() <= padded(old(self)@.offsets, (component_id + 1) as nat).len(),
            decreases component_id + 1 - offsets.len(),
        {
            offsets.push(UNSET);
            assert(offsets@ =~= padded(old(self)@.offsets, offsets@.len()));
        }
        offsets[component_id] = slot;
        self.aspect_mut().add_key(component_id);
        assert(self@.offsets =~= old(self)@.attached(component_id, slot).offsets);
    }

    /// Records that the entity has no component with id `component_id`.
    pub(crate) fn detach(&mut self, component_id: usize)
        ensures
            final(self)@ == old(self)@.detached(component_id),
    {
        let offsets = self.offsets_mut();
        if component_id < offsets.len() {
            offsets[component_id] = UNSET;
        }
        self.aspect_mut().del_key(component_id);
    }

    /// Records that the entity belongs to the system with id `system_id`.
    pub(crate) fn join(&mut self, system_id: usize)
        requires
            system_id < usize::MAX,
        ensures
            final(self)@ == old(self)@.joined(system_id),
    {
        self.systems_mut().insert(system_id);
    }

    /// Records that the entity does not belong to the system with id
    /// `system_id`.
    pub(crate) fn leave(&mut self, system_id: usize)
        ensures
            final(self)@ == old(self)@.left(system_id),
    {
        self.systems_mut().remove(system_id);
    }
}

/// Attaching a component keeps a record well formed and makes the slot the
/// one recorded for the component; the slots of the other components stay.
pub proof fn lemma_attached(entity: EntityView, component_id: usize, slot: usize)
    requires
        entity.wf(),
        component_id < usize::MAX,
        slot != UNSET,
    ensures
        entity.attached(component_id, slot).wf(),
        entity.attached(component_id, slot).slot_of(component_id) == Some(slot),
        forall|c: usize| c != component_id
            ==> #[trigger] entity.attached(component_id, slot).slot_of(c) == entity.slot_of(c),
{
    let after = entity.attached(component_id, slot);
    assert forall|c: usize| c != component_id implies #[trigger] after.slot_of(c) == entity.slot_of(c) by {}
    assert forall|c: usize|
        #![trigger after.aspect.contains(c)]
        #![trigger after.slot_of(c)]
        after.aspect.contains(c) <==> after.slot_of(c).is_some() by {
        if c != component_id {
            assert(entity.aspect.contains(c) <==> entity.slot_of(c).is_some());
        }
    }
}

/// Detaching a component keeps a record well formed and leaves no slot
/// recorded for the component; the slots of the other components stay.
pub proof fn lemma_detached(entity: EntityView, component_id: usize)
    requires
        entity.wf(),
    ensures
        entity.detached(component_id).wf(),
        entity.detached(component_id).slot_of(component_id) == None::<usize>,
        forall|c: usize| c != component_id ==> #[trigger] entity.detached(component_id).slot_of(c) == entity.slot_of(c),
{
    let after = entity.detached(component_id);
    assert forall|c: usize|
        #![trigger after.aspect.contains(c)]
        #![trigger after.slot_of(c)]
        after.aspect.contains(c) <==> after.slot_of(c).is_some() by {
        if c != component_id {
            assert(entity.aspect.contains(c) <==> entity.slot_of(c).is_some());
        }
    }
}

} // verus!
