//! The store: every bank and every entity record of a world.
use crate::bank::lemma_added;
use crate::bank::lemma_added_keeps;
use crate::bank::lemma_deleted;
use crate::bank::lemma_deleted_keeps;
use crate::bank::Bank;
use crate::bank::BankView;
use crate::entity::lemma_attached;
use crate::entity::lemma_detached;
use crate::entity::Entity;
use crate::entity::EntityView;
use crate::entity::UNSET;
use vstd::prelude::*;

verus! {

/// The banks of a world, one per registered component id, and the records of
/// its entities. Systems get the store while they update: they may read the
/// records and read and write component values, and nothing else.
pub struct Store<C> {
    banks: Vec<Bank<C>>,
    entities: Vec<Entity>,
}

impl<C> Store<C> {
    /// The banks, indexed by component id.
    pub closed spec fn banks(&self) -> Seq<Bank<C>> {
        self.banks@
    }

    /// The entity records, in the order in which the entities were spawned.
    pub closed spec fn entities(&self) -> Seq<Entity> {
        self.entities@
    }

    /// Whether `component_id` is the id of a registered component type.
    pub open spec fn has_bank(&self, component_id: usize) -> bool {
        component_id < self.banks().len()
    }

    /// Whether `id` is the id of an entity of this store. Ids start at 1.
    pub open spec fn has_entity(&self, id: usize) -> bool {
        1 <= id <= self.entities().len()
    }

    /// What the bank of `component_id` holds.
    pub open spec fn spec_bank(&self, component_id: usize) -> BankView<C> {
        self.banks()[component_id as int]@
    }

    /// The record of the entity `id`.
    pub open spec fn spec_entity(&self, id: usize) -> EntityView {
        self.entities()[id - 1]@
    }

    /// The component with id `component_id` of the entity `id`, if the entity
    /// has one.
    pub open spec fn component(&self, component_id: usize, id: usize) -> Option<C> {
        match self.spec_entity(id).slot_of(component_id) {
            Some(slot) => Some(self.spec_bank(component_id).slots[slot as int]),
            None => None,
        }
    }

    /// The banks and records fit together: every record carries its entity's
    /// id, every recorded slot is a live slot of a registered bank, and no
    /// slot is recorded for two entities.
    pub open spec fn wf(&self) -> bool {
        &&& forall|c: usize| self.has_bank(c) ==> (#[trigger] self.spec_bank(c)).wf()
        &&& forall|e: usize|
            self.has_entity(e) ==> (#[trigger] self.spec_entity(e)).id == e && self.spec_entity(e).wf()
        &&& forall|e: usize, c: usize|
            self.has_entity(e) && (#[trigger] self.spec_entity(e).slot_of(c)).is_some() ==> self.has_bank(c)
                && self.spec_bank(c).is_live(self.spec_entity(e).slot_of(c).unwrap())
        &&& forall|a: usize, b: usize, c: usize|
            #![trigger self.spec_entity(a).slot_of(c), self.spec_entity(b).slot_of(c)]
            self.has_entity(a) && self.has_entity(b) && a != b && self.spec_entity(a).slot_of(c).is_some()
                ==> self.spec_entity(a).slot_of(c) != self.spec_entity(b).slot_of(c)
    }

    /// `self` has the layout of `other`: the same entities with the same
    /// ids, offsets and aspects, and in each bank the same slots, live and
    /// reclaimed. Component values and system memberships may differ.
    pub open spec fn same_layout(&self, other: &Store<C>) -> bool {
        &&& self.banks().len() == other.banks().len()
        &&& self.entities().len() == other.entities().len()
        &&& forall|e: usize|
            other.has_entity(e) ==> (#[trigger] self.spec_entity(e)).id == other.spec_entity(e).id
                && self.spec_entity(e).offsets == other.spec_entity(e).offsets && self.spec_entity(e).aspect
                == other.spec_entity(e).aspect
        &&& forall|c: usize|
            other.has_bank(c) ==> (#[trigger] self.spec_bank(c)).holes == other.spec_bank(c).holes
                && self.spec_bank(c).slots.len() == other.spec_bank(c).slots.len()
    }

    /// `self` differs from `other` at most in the values of components: the
    /// records are the same, and each bank has the same slots, live and
    /// reclaimed.
    pub open spec fn same_shape(&self, other: &Store<C>) -> bool {
        &&& self.same_layout(other)
        &&& forall|e: usize| other.has_entity(e) ==> #[trigger] self.spec_entity(e) == other.spec_entity(e)
    }

    /// `self` is `other` with `value` written over the component with id
    /// `component_id` of the entity `id`, which has such a component.
    pub open spec fn wrote(&self, other: &Store<C>, component_id: usize, id: usize, value: C) -> bool {
        &&& other.spec_entity(id).slot_of(component_id).is_some()
        &&& self.entities() == other.entities()
        &&& self.banks().len() == other.banks().len()
        &&& self.spec_bank(component_id)
            == other.spec_bank(component_id).stored(other.spec_entity(id).slot_of(component_id).unwrap(), value)
        &&& forall|c: usize|
            c != component_id && other.has_bank(c) ==> #[trigger] self.banks()[c as int] == other.banks()[c as int]
    }

    /// What the bank of `component_id` holds once the slot of the entity's
    /// component, if it has one, is given back.
    pub open spec fn freed(&self, component_id: usize, id: usize) -> BankView<C> {
        match self.spec_entity(id).slot_of(component_id) {
            Some(slot) => self.spec_bank(component_id).deleted(slot),
            None => self.spec_bank(component_id),
        }
    }

    /// A store with the layout of a well-formed store is well formed.
    pub proof fn lemma_same_layout_wf(&self, other: &Store<C>)
        requires
            other.wf(),
            self.same_layout(other),
        ensures
            self.wf(),
    {
        assert forall|c: usize| self.has_bank(c) implies (#[trigger] self.spec_bank(c)).wf() by {
            let a = self.spec_bank(c);
            let b = other.spec_bank(c);
            assert(b.wf());
            assert(a.holes == b.holes);
        }
        assert forall|e: usize| self.has_entity(e) implies (#[trigger] self.spec_entity(e)).id == e
            && self.spec_entity(e).wf() by {
            let a = self.spec_entity(e);
            let b = other.spec_entity(e);
            assert(b.wf());
            assert forall|c: usize|
                #![trigger a.aspect.contains(c)]
                #![trigger a.slot_of(c)]
                a.aspect.contains(c) <==> a.slot_of(c).is_some() by {
                assert(b.aspect.contains(c) <==> b.slot_of(c).is_some());
            }
        }
        assert forall|e: usize, c: usize|
            self.has_entity(e) && (#[trigger] self.spec_entity(e).slot_of(c)).is_some() implies self.has_bank(c)
            && self.spec_bank(c).is_live(self.spec_entity(e).slot_of(c).unwrap()) by {
            assert(other.spec_entity(e).slot_of(c) == self.spec_entity(e).slot_of(c));
            assert(self.spec_bank(c).holes == other.spec_bank(c).holes);
        }
        assert forall|a: usize, b: usize, c: usize|
            #![trigger self.spec_entity(a).slot_of(c), self.spec_entity(b).slot_of(c)]
            self.has_entity(a) && self.has_entity(b) && a != b && self.spec_entity(a).slot_of(c).is_some()
            implies self.spec_entity(a).slot_of(c) != self.spec_entity(b).slot_of(c) by {
            assert(other.spec_entity(a).slot_of(c) == self.spec_entity(a).slot_of(c));
            assert(other.spec_entity(b).slot_of(c) == self.spec_entity(b).slot_of(c));
        }
    }

    /// Having the same shape is transitive.
    pub proof fn lemma_same_shape_trans(&self, middle: &Store<C>, other: &Store<C>)
        requires
            self.same_shape(middle),
            middle.same_shape(other),
        ensures
            self.same_shape(other),
    {
        assert forall|e: usize| other.has_entity(e) implies #[trigger] self.spec_entity(e) == other.spec_entity(e) by {
            assert(middle.spec_entity(e) == other.spec_entity(e));
        }
        assert forall|c: usize| other.has_bank(c)
            implies (#[trigger] self.spec_bank(c)).holes == other.spec_bank(c).holes
            && self.spec_bank(c).slots.len() == other.spec_bank(c).slots.len() by {
            assert(middle.spec_bank(c).holes == other.spec_bank(c).holes);
        }
    }

    /// Writing a component value keeps a store well formed and in shape. The
    /// component then has the value written, and every other component of
    /// every entity is as it was.
    pub proof fn lemma_wrote(&self, other: &Store<C>, component_id: usize, id: usize, value: C)
        requires
            other.wf(),
            other.has_bank(component_id),
            other.has_entity(id),
            self.wrote(other, component_id, id, value),
        ensures
            self.wf(),
            self.same_shape(other),
            self.component(component_id, id) == Some(value),
            forall|c: usize, e: usize|
                other.has_entity(e) && !(c == component_id && e == id) ==> #[trigger] self.component(c, e)
                    == other.component(c, e),
    {
        let slot = other.spec_entity(id).slot_of(component_id).unwrap();
        assert(other.spec_bank(component_id).is_live(slot));
        assert forall|e: usize| other.has_entity(e) implies #[trigger] self.spec_entity(e) == other.spec_entity(e) by {}
        assert forall|c: usize| other.has_bank(c)
            implies (#[trigger] self.spec_bank(c)).holes == other.spec_bank(c).holes
            && self.spec_bank(c).slots.len() == other.spec_bank(c).slots.len() by {
            if c != component_id {
                assert(self.banks()[c as int] == other.banks()[c as int]);
            }
        }
        self.lemma_same_layout_wf(other);
        assert forall|c: usize, e: usize| other.has_entity(e) && !(c == component_id && e == id)
            implies #[trigger] self.component(c, e) == other.component(c, e) by {
            assert(self.spec_entity(e) == other.spec_entity(e));
            if other.spec_entity(e).slot_of(c).is_some() {
                assert(other.has_bank(c));
                if c != component_id {
                    assert(self.banks()[c as int] == other.banks()[c as int]);
                } else {
                    assert(other.spec_entity(id).slot_of(c) != other.spec_entity(e).slot_of(c));
                }
            }
        }
    }

    /// A store with no banks and no entities.
    pub(crate) fn new() -> (store: Store<C>)
        ensures
            store.wf(),
            store.banks().len() == 0,
            store.entities().len() == 0,
    {
        Store { banks: Vec::new(), entities: Vec::new() }
    }

    /// The number of registered component types.
    pub fn component_count(&self) -> (count: usize)
        ensures
            count == self.banks().len(),
    {
        self.banks.len()
    }

    /// The number of entities.
    pub fn entity_count(&self) -> (count: usize)
        ensures
            count == self.entities().len(),
    {
        self.entities.len()
    }

    /// The record of the entity `id`.
    pub fn entity(&self, id: usize) -> (entity: &Entity)
        requires
            self.has_entity(id),
        ensures
            entity@ == self.spec_entity(id),
    {
        &self.entities[id - 1]
    }

    /// The bank of the component type `component_id`.
    pub fn get_bank(&self, component_id: usize) -> (bank: &Bank<C>)
        requires
            self.has_bank(component_id),
        ensures
            bank@ == self.spec_bank(component_id),
    {
        &self.banks[component_id]
    }

    /// The bank of the component type `component_id`, for writing.
    pub(crate) fn get_bank_mut(&mut self, component_id: usize) -> (bank: &mut Bank<C>)
        requires
            old(self).has_bank(component_id),
        ensures
            bank@ == old(self).spec_bank(component_id),
            final(self).entities() == old(self).entities(),
            final(self).banks() == old(self).banks().update(component_id as int, *final(bank)),
    {
        &mut self.banks[component_id]
    }

    /// The record of the entity `id`, for writing.
    pub(crate) fn entity_mut(&mut self, id: usize) -> (entity: &mut Entity)
        requires
            old(self).has_entity(id),
        ensures
            entity@ == old(self).spec_entity(id),
            final(self).banks() == old(self).banks(),
            final(self).entities() == old(self).entities().update(id - 1, *final(entity)),
    {
        &mut self.entities[id - 1]
    }

    /// Adds a bank for the component type `id`, which must be the next id.
    pub(crate) fn register_component(&mut self, id: usize)
        requires
            old(self).wf(),
            id == old(self).banks().len(),
        ensures
            final(self).wf(),
            final(self).banks().len() == id + 1,
            final(self).spec_bank(id).slots == Seq::<C>::empty(),
            final(self).spec_bank(id).holes == Seq::<usize>::empty(),
            forall|c: usize| c < id ==> final(self).banks()[c as int] == old(self).banks()[c as int],
            final(self).entities() == old(self).entities(),
    {
        self.banks.push(Bank::new());
        proof {
            let pre = *old(self);
            assert forall|c: usize| self.has_bank(c) implies (#[trigger] self.spec_bank(c)).wf() by {
                if c < id {
                    assert(self.spec_bank(c) == pre.spec_bank(c));
                }
            }
            assert forall|e: usize| self.has_entity(e) implies (#[trigger] self.spec_entity(e)).id == e
                && self.spec_entity(e).wf() by {
                assert(self.spec_entity(e) == pre.spec_entity(e));
            }
            assert forall|e: usize, c: usize|
                self.has_entity(e) && (#[trigger] self.spec_entity(e).slot_of(c)).is_some() implies self.has_bank(c)
                && self.spec_bank(c).is_live(self.spec_entity(e).slot_of(c).unwrap()) by {
                assert(pre.spec_entity(e).slot_of(c).is_some());
                assert(self.spec_bank(c) == pre.spec_bank(c));
            }
            assert forall|a: usize, b: usize, c: usize|
                #![trigger self.spec_entity(a).slot_of(c), self.spec_entity(b).slot_of(c)]
                self.has_entity(a) && self.has_entity(b) && a != b && self.spec_entity(a).slot_of(c).is_some()
                implies self.spec_entity(a).slot_of(c) != self.spec_entity(b).slot_of(c) by {
                assert(pre.spec_entity(a).slot_of(c) != pre.spec_entity(b).slot_of(c));
            }
        }
    }

    /// Adds a record for a new entity and returns its id, one more than the
    /// number of entities before.
    pub(crate) fn spawn(&mut self) -> (id: usize)
        requires
            old(self).wf(),
            old(self).entities().len() < usize::MAX,
        ensures
            final(self).wf(),
            id == old(self).entities().len() + 1,
            final(self).entities().len() == id,
            final(self).spec_entity(id) == (EntityView {
                id,
                offsets: Seq::<usize>::empty(),
                aspect: Set::<usize>::empty(),
                systems: Set::<usize>::empty(),
            }),
            forall|e: usize| old(self).has_entity(e) ==> final(self).entities()[e - 1] == old(self).entities()[e - 1],
            final(self).banks() == old(self).banks(),
    {
        let id: usize = self.entities.len() + 1;
        let entity = Entity::new(id, self.banks.len());
        self.entities.push(entity);
        proof {
            let pre = *old(self);
            assert forall|e: usize| self.has_entity(e) implies (#[trigger] self.spec_entity(e)).id == e
                && self.spec_entity(e).wf() by {
                if e != id {
                    assert(self.spec_entity(e) == pre.spec_entity(e));
                }
            }
            assert forall|c: usize| self.has_bank(c) implies (#[trigger] self.spec_bank(c)).wf() by {
                assert(self.spec_bank(c) == pre.spec_bank(c));
            }
            assert forall|e: usize, c: usize|
                self.has_entity(e) && (#[trigger] self.spec_entity(e).slot_of(c)).is_some() implies self.has_bank(c)
                && self.spec_bank(c).is_live(self.spec_entity(e).slot_of(c).unwrap()) by {
                assert(e != id);
                assert(self.spec_entity(e) == pre.spec_entity(e));
                assert(pre.spec_entity(e).slot_of(c).is_some());
                assert(self.spec_bank(c) == pre.spec_bank(c));
            }
            assert forall|a: usize, b: usize, c: usize|
                #![trigger self.spec_entity(a).slot_of(c), self.spec_entity(b).slot_of(c)]
                self.has_entity(a) && self.has_entity(b) && a != b && self.spec_entity(a).slot_of(c).is_some()
                implies self.spec_entity(a).slot_of(c) != self.spec_entity(b).slot_of(c) by {
                assert(a != id);
                assert(self.spec_entity(a) == pre.spec_entity(a));
                if b != id {
                    assert(self.spec_entity(b) == pre.spec_entity(b));
                    assert(pre.spec_entity(a).slot_of(c) != pre.spec_entity(b).slot_of(c));
                }
            }
        }
        id
    }

    /// The component with id `component_id` of the entity `id`, for reading,
    /// or `None` if the entity has no such component.
    pub fn peek_component(&self, component_id: usize, id: usize) -> (component: Option<&C>)
        requires
            self.wf(),
            self.has_bank(component_id),
            self.has_entity(id),
        ensures
            match component {
                Some(value) => self.component(component_id, id) == Some(*value),
                None => self.component(component_id, id).is_none(),
            },
    {
        match self.entity(id).slot(component_id) {
            Some(slot) => {
                assert(self.spec_entity(id).slot_of(component_id) == Some(slot));
                Some(self.get_bank(component_id).peek(slot))
            },
            None => None,
        }
    }

    /// The component with id `component_id` of the entity `id`, for reading
    /// and writing, or `None` if the entity has no such component. Whatever
    /// is written, the store keeps its shape and every other component its
    /// value.
    pub fn get_component(&mut self, component_id: usize, id: usize) -> (component: Option<&mut C>)
        requires
            old(self).wf(),
            old(self).has_bank(component_id),
            old(self).has_entity(id),
        ensures
            match component {
                Some(value) => old(self).component(component_id, id) == Some(*value) && final(self).wrote(
                    old(self),
                    component_id,
                    id,
                    *final(value),
                ) && final(self).component(component_id, id) == Some(*final(value)),
                None => old(self).component(component_id, id).is_none() && final(self).banks() == old(self).banks()
                    && final(self).entities() == old(self).entities(),
            },
            final(self).wf(),
            final(self).same_shape(old(self)),
            forall|c: usize, e: usize|
                old(self).has_entity(e) && !(c == component_id && e == id) ==> #[trigger] final(self).component(c, e)
                    == old(self).component(c, e),
    {
        match self.entity(id).slot(component_id) {
            Some(slot) => {
                assert(old(self).spec_entity(id).slot_of(component_id) == Some(slot));
                assert(old(self).spec_bank(component_id).is_live(slot));
                proof {
                    // Whatever the caller writes, the store that results is
                    // this one with that value in the slot.
                    let pre = *old(self);
                    assert forall|post: Store<C>|
                        post.wrote(&pre, component_id, id, post.spec_bank(component_id).slots[slot as int])
                        implies #[trigger] post.wf() by {
                        post.lemma_wrote(&pre, component_id, id, post.spec_bank(component_id).slots[slot as int]);
                    }
                    assert forall|post: Store<C>|
                        post.wrote(&pre, component_id, id, post.spec_bank(component_id).slots[slot as int])
                        implies #[trigger] post.same_shape(&pre) by {
                        post.lemma_wrote(&pre, component_id, id, post.spec_bank(component_id).slots[slot as int]);
                    }
                    assert forall|post: Store<C>, c: usize, e: usize|
                        post.wrote(&pre, component_id, id, post.spec_bank(component_id).slots[slot as int])
                            && pre.has_entity(e) && !(c == component_id && e == id)
                                implies #[trigger] post.component(c, e) == pre.component(c, e) by {
                        post.lemma_wrote(&pre, component_id, id, post.spec_bank(component_id).slots[slot as int]);
                    }
                }
                Some(self.get_bank_mut(component_id).get(slot))
            },
            None => {
                proof {
                    assert(self.same_layout(old(self)));
                }
                None
            },
        }
    }

    /// Stores `component` as the component with id `component_id` of the
    /// entity `id` and returns its slot. If the entity had such a component
    /// already, its slot is given back first.
    pub(crate) fn attach(&mut self, component_id: usize, component: C, id: usize) -> (slot: usize)
        requires
            old(self).wf(),
            old(self).has_bank(component_id),
            old(self).has_entity(id),
        ensures
            final(self).wf(),
            final(self).banks().len() == old(self).banks().len(),
            final(self).entities().len() == old(self).entities().len(),
            slot == old(self).freed(component_id, id).next_slot(),
            final(self).spec_bank(component_id) == old(self).freed(component_id, id).added(component),
            final(self).spec_entity(id) == old(self).spec_entity(id).attached(component_id, slot),
            forall|c: usize|
                c != component_id && old(self).has_bank(c)
                    ==> #[trigger] final(self).banks()[c as int] == old(self).banks()[c as int],
            forall|e: usize|
                e != id && old(self).has_entity(e)
                    ==> #[trigger] final(self).entities()[e - 1] == old(self).entities()[e - 1],
            final(self).component(component_id, id) == Some(component),
            forall|c: usize, e: usize|
                old(self).has_entity(e) && !(c == component_id && e == id) ==> #[trigger] final(self).component(c, e)
                    == old(self).component(c, e),
    {
        let old_slot: Option<usize> = self.entity(id).slot(component_id);
        let ghost pre = *old(self);
        let ghost bank0 = pre.spec_bank(component_id);
        let ghost freed = pre.freed(component_id, id);
        assert(bank0.wf());
        assert(pre.spec_entity(id).slot_of(component_id) == old_slot);
        let bank = self.get_bank_mut(component_id);
        match old_slot {
            Some(used) => {
                assert(bank0.is_live(used));
                bank.del(used);
            },
            None => {},
        }
        let slot: usize = bank.add(component);
        assert(component_id < self.banks.len());
        self.entity_mut(id).attach(component_id, slot);
        proof {
            let bank1 = freed.added(component);
            assert(self.spec_bank(component_id) == bank1);
            assert(self.spec_entity(id) == pre.spec_entity(id).attached(component_id, slot));
            assert(pre.spec_entity(id).wf());
            lemma_attached(pre.spec_entity(id), component_id, slot);
            assert forall|c: usize| c != component_id && pre.has_bank(c) implies #[trigger] self.banks()[c as int]
                == pre.banks()[c as int] by {}
            assert forall|e: usize| e != id && pre.has_entity(e) implies #[trigger] self.entities()[e - 1]
                == pre.entities()[e - 1] by {}
            // What an entity other than `id` holds in the bank stays live and in place.
            assert forall|e: usize|
                pre.has_entity(e) && e != id && (#[trigger] pre.spec_entity(e).slot_of(component_id)).is_some()
                    implies {
                let s = pre.spec_entity(e).slot_of(component_id).unwrap();
                bank1.is_live(s) && bank1.slots[s as int] == bank0.slots[s as int] && s != slot
            } by {
                let s = pre.spec_entity(e).slot_of(component_id).unwrap();
                assert(bank0.is_live(s));
                match old_slot {
                    Some(used) => {
                        assert(pre.spec_entity(e).slot_of(component_id) != pre.spec_entity(id).slot_of(component_id));
                        lemma_deleted_keeps(bank0, used, s);
                    },
                    None => {},
                }
                lemma_added_keeps(freed, component, s);
            }
            assert forall|c: usize| self.has_bank(c) implies (#[trigger] self.spec_bank(c)).wf() by {
                if c != component_id {
                    assert(self.banks()[c as int] == pre.banks()[c as int]);
                    assert(pre.spec_bank(c).wf());
                }
            }
            assert forall|e: usize| self.has_entity(e) implies (#[trigger] self.spec_entity(e)).id == e
                && self.spec_entity(e).wf() by {
                if e != id {
                    assert(self.entities()[e - 1] == pre.entities()[e - 1]);
                    assert(pre.spec_entity(e).wf());
                } else {
                    assert(pre.spec_entity(e).id == e);
                }
            }
            assert forall|e: usize, c: usize|
                self.has_entity(e) && (#[trigger] self.spec_entity(e).slot_of(c)).is_some() implies self.has_bank(c)
                && self.spec_bank(c).is_live(self.spec_entity(e).slot_of(c).unwrap()) by {
                if e != id {
                    assert(self.entities()[e - 1] == pre.entities()[e - 1]);
                    assert(pre.spec_entity(e).slot_of(c).is_some());
                    if c != component_id {
                        assert(self.banks()[c as int] == pre.banks()[c as int]);
                    }
                } else if c != component_id {
                    assert(pre.spec_entity(id).slot_of(c).is_some());
                    assert(self.banks()[c as int] == pre.banks()[c as int]);
                }
            }
            assert forall|a: usize, b: usize, c: usize|
                #![trigger self.spec_entity(a).slot_of(c), self.spec_entity(b).slot_of(c)]
                self.has_entity(a) && self.has_entity(b) && a != b && self.spec_entity(a).slot_of(c).is_some()
                implies self.spec_entity(a).slot_of(c) != self.spec_entity(b).slot_of(c) by {
                if a != id {
                    assert(self.entities()[a - 1] == pre.entities()[a - 1]);
                }
                if b != id {
                    assert(self.entities()[b - 1] == pre.entities()[b - 1]);
                }
                if a != id && b != id {
                    assert(pre.spec_entity(a).slot_of(c) != pre.spec_entity(b).slot_of(c));
                } else if c != component_id {
                    assert(pre.spec_entity(a).slot_of(c) != pre.spec_entity(b).slot_of(c));
                } else if a == id {
                    if pre.spec_entity(b).slot_of(c).is_some() {
                        assert(pre.spec_entity(b).slot_of(component_id).unwrap() != slot);
                    }
                } else {
                    assert(pre.spec_entity(a).slot_of(component_id).unwrap() != slot);
                }
            }
            lemma_added(freed, component);
            assert forall|c: usize, e: usize| pre.has_entity(e) && !(c == component_id && e == id)
                implies #[trigger] self.component(c, e) == pre.component(c, e) by {
                if e != id {
                    assert(self.entities()[e - 1] == pre.entities()[e - 1]);
                    if pre.spec_entity(e).slot_of(c).is_some() {
                        assert(pre.has_bank(c));
                        if c != component_id {
                            assert(self.banks()[c as int] == pre.banks()[c as int]);
                        }
                    }
                } else {
                    if pre.spec_entity(e).slot_of(c).is_some() {
                        assert(pre.has_bank(c));
                        assert(self.banks()[c as int] == pre.banks()[c as int]);
                    }
                }
            }
        }
        slot
    }

    /// Takes the component with id `component_id` away from the entity `id`
    /// and gives its slot back. Nothing changes if the entity has no such
    /// component.
    pub(crate) fn detach(&mut self, component_id: usize, id: usize)
        requires
            old(self).wf(),
            old(self).has_bank(component_id),
            old(self).has_entity(id),
        ensures
            final(self).wf(),
            final(self).banks().len() == old(self).banks().len(),
            final(self).entities().len() == old(self).entities().len(),
            final(self).spec_bank(component_id) == old(self).freed(component_id, id),
            final(self).spec_entity(id) == old(self).spec_entity(id).detached(component_id),
            forall|c: usize|
                c != component_id && old(self).has_bank(c)
                    ==> #[trigger] final(self).banks()[c as int] == old(self).banks()[c as int],
            forall|e: usize|
                e != id && old(self).has_entity(e)
                    ==> #[trigger] final(self).entities()[e - 1] == old(self).entities()[e - 1],
            final(self).component(component_id, id).is_none(),
            forall|c: usize, e: usize|
                old(self).has_entity(e) && !(c == component_id && e == id) ==> #[trigger] final(self).component(c, e)
                    == old(self).component(c, e),
    {
        let old_slot: Option<usize> = self.entity(id).slot(component_id);
        let ghost pre = *old(self);
        let ghost bank0 = pre.spec_bank(component_id);
        let ghost freed = pre.freed(component_id, id);
        assert(bank0.wf());
        assert(pre.spec_entity(id).slot_of(component_id) == old_slot);
        match old_slot {
            Some(used) => {
                assert(bank0.is_live(used));
                self.get_bank_mut(component_id).del(used);
            },
            None => {},
        }
        self.entity_mut(id).detach(component_id);
        proof {
            assert(self.spec_bank(component_id) == freed);
            assert(self.spec_entity(id) == pre.spec_entity(id).detached(component_id));
            assert(pre.spec_entity(id).wf());
            lemma_detached(pre.spec_entity(id), component_id);
            assert forall|c: usize| c != component_id && pre.has_bank(c) implies #[trigger] self.banks()[c as int]
                == pre.banks()[c as int] by {}
            assert forall|e: usize| e != id && pre.has_entity(e) implies #[trigger] self.entities()[e - 1]
                == pre.entities()[e - 1] by {}
            assert forall|e: usize|
                pre.has_entity(e) && e != id && (#[trigger] pre.spec_entity(e).slot_of(component_id)).is_some()
                    implies freed.is_live(pre.spec_entity(e).slot_of(component_id).unwrap()) by {
                let s = pre.spec_entity(e).slot_of(component_id).unwrap();
                assert(bank0.is_live(s));
                match old_slot {
                    Some(used) => {
                        assert(pre.spec_entity(e).slot_of(component_id) != pre.spec_entity(id).slot_of(component_id));
                        lemma_deleted_keeps(bank0, used, s);
                    },
                    None => {},
                }
            }
            assert(freed.wf()) by {
                match old_slot {
                    Some(used) => {
                        lemma_deleted(bank0, used);
                    },
                    None => {},
                }
            }
            assert forall|c: usize| self.has_bank(c) implies (#[trigger] self.spec_bank(c)).wf() by {
                if c != component_id {
                    assert(self.banks()[c as int] == pre.banks()[c as int]);
                    assert(pre.spec_bank(c).wf());
                }
            }
            assert forall|e: usize| self.has_entity(e) implies (#[trigger] self.spec_entity(e)).id == e
                && self.spec_entity(e).wf() by {
                if e != id {
                    assert(self.entities()[e - 1] == pre.entities()[e - 1]);
                    assert(pre.spec_entity(e).wf());
                } else {
                    assert(pre.spec_entity(e).id == e);
                }
            }
            assert forall|e: usize, c: usize|
                self.has_entity(e) && (#[trigger] self.spec_entity(e).slot_of(c)).is_some() implies self.has_bank(c)
                && self.spec_bank(c).is_live(self.spec_entity(e).slot_of(c).unwrap()) by {
                if e != id {
                    assert(self.entities()[e - 1] == pre.entities()[e - 1]);
                    assert(pre.spec_entity(e).slot_of(c).is_some());
                    if c != component_id {
                        assert(self.banks()[c as int] == pre.banks()[c as int]);
                    }
                } else {
                    assert(c != component_id);
                    assert(pre.spec_entity(id).slot_of(c).is_some());
                    assert(self.banks()[c as int] == pre.banks()[c as int]);
                }
            }
            assert forall|a: usize, b: usize, c: usize|
                #![trigger self.spec_entity(a).slot_of(c), self.spec_entity(b).slot_of(c)]
                self.has_entity(a) && self.has_entity(b) && a != b && self.spec_entity(a).slot_of(c).is_some()
                implies self.spec_entity(a).slot_of(c) != self.spec_entity(b).slot_of(c) by {
                if a != id {
                    assert(self.entities()[a - 1] == pre.entities()[a - 1]);
                }
                if b != id {
                    assert(self.entities()[b - 1] == pre.entities()[b - 1]);
                }
                if c != component_id || (a != id && b != id) {
                    assert(pre.spec_entity(a).slot_of(c) != pre.spec_entity(b).slot_of(c));
                }
            }
            assert forall|c: usize, e: usize| pre.has_entity(e) && !(c == component_id && e == id)
                implies #[trigger] self.component(c, e) == pre.component(c, e) by {
                if e != id {
                    assert(self.entities()[e - 1] == pre.entities()[e - 1]);
                }
                if pre.spec_entity(e).slot_of(c).is_some() {
                    assert(pre.has_bank(c));
                    if c != component_id {
                        assert(self.banks()[c as int] == pre.banks()[c as int]);
                    }
                }
            }
        }
    }

    /// Records that the entity `id` belongs to the system `system_id`.
    pub(crate) fn join(&mut self, id: usize, system_id: usize)
        requires
            old(self).wf(),
            old(self).has_entity(id),
            system_id < usize::MAX,
        ensures
            final(self).wf(),
            final(self).same_layout(old(self)),
            final(self).banks() == old(self).banks(),
            final(self).entities().len() == old(self).entities().len(),
            final(self).spec_entity(id) == old(self).spec_entity(id).joined(system_id),
            forall|e: usize|
                e != id && old(self).has_entity(e)
                    ==> #[trigger] final(self).entities()[e - 1] == old(self).entities()[e - 1],
    {
        self.entity_mut(id).join(system_id);
        proof {
            let pre = *old(self);
            assert forall|e: usize| e != id && pre.has_entity(e) implies #[trigger] self.entities()[e - 1]
                == pre.entities()[e - 1] by {}
            assert forall|e: usize| pre.has_entity(e)
                implies (#[trigger] self.spec_entity(e)).id == pre.spec_entity(e).id
                && self.spec_entity(e).offsets == pre.spec_entity(e).offsets && self.spec_entity(e).aspect
                == pre.spec_entity(e).aspect by {
                if e != id {
                    assert(self.entities()[e - 1] == pre.entities()[e - 1]);
                }
            }
            self.lemma_same_layout_wf(&pre);
        }
    }

    /// Records that the entity `id` does not belong to the system
    /// `system_id`.
    pub(crate) fn leave(&mut self, id: usize, system_id: usize)
        requires
            old(self).wf(),
            old(self).has_entity(id),
        ensures
            final(self).wf(),
            final(self).same_layout(old(self)),
            final(self).banks() == old(self).banks(),
            final(self).entities().len() == old(self).entities().len(),
            final(self).spec_entity(id) == old(self).spec_entity(id).left(system_id),
            forall|e: usize|
                e != id && old(self).has_entity(e)
                    ==> #[trigger] final(self).entities()[e - 1] == old(self).entities()[e - 1],
    {
        self.entity_mut(id).leave(system_id);
        proof {
            let pre = *old(self);
            assert forall|e: usize| e != id && pre.has_entity(e) implies #[trigger] self.entities()[e - 1]
                == pre.entities()[e - 1] by {}
            assert forall|e: usize| pre.has_entity(e)
                implies (#[trigger] self.spec_entity(e)).id == pre.spec_entity(e).id
                && self.spec_entity(e).offsets == pre.spec_entity(e).offsets && self.spec_entity(e).aspect
                == pre.spec_entity(e).aspect by {
                if e != id {
                    assert(self.entities()[e - 1] == pre.entities()[e - 1]);
                }
            }
            self.lemma_same_layout_wf(&pre);
        }
    }
}

} // verus!
