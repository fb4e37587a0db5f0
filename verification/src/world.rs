//! The world: the store, the systems, and the protocol between them.
use crate::entity::Entity;
use crate::entity::EntityView;
use crate::entity::UNSET;
use crate::store::Store;
use crate::system::dropped;
use crate::system::lemma_dropped;
use crate::system::lemma_pushed;
use crate::system::System;
use std::marker::PhantomData;
use vstd::prelude::*;

verus! {

/// Whether `id` stands in `ids` at an index from `from` up to, but not
/// including, `to`.
pub open spec fn listed(ids: Seq<usize>, from: int, to: int, id: usize) -> bool {
    exists|j: int| from <= j < to && #[trigger] ids[j] == id
}

/// In a list without repetitions, the ids listed from `k` on are `ids[k]` and
/// those listed after it, the ids listed up to `k` are `ids[k]` and those
/// listed before it, and `ids[k]` is listed neither before nor after `k`.
pub proof fn lemma_listed_step(ids: Seq<usize>, k: int)
    requires
        0 <= k < ids.len(),
        ids.no_duplicates(),
    ensures
        forall|s: usize| #[trigger] listed(ids, k, ids.len() as int, s)
            <==> s == ids[k] || listed(ids, k + 1, ids.len() as int, s),
        forall|s: usize| #[trigger] listed(ids, 0, k + 1, s) <==> s == ids[k] || listed(ids, 0, k, s),
        !listed(ids, k + 1, ids.len() as int, ids[k]),
        !listed(ids, 0, k, ids[k]),
{
    let count = ids.len() as int;
    assert forall|s: usize| #[trigger] listed(ids, k, count, s) <==> s == ids[k] || listed(ids, k + 1, count, s) by {
        if listed(ids, k, count, s) {
            let j = choose|j: int| k <= j < count && #[trigger] ids[j] == s;
            if j != k {
                assert(k + 1 <= j < count && ids[j] == s);
            }
        }
        if listed(ids, k + 1, count, s) {
            let j = choose|j: int| k + 1 <= j < count && #[trigger] ids[j] == s;
            assert(k <= j < count && ids[j] == s);
        }
        if s == ids[k] {
            assert(ids[k] == s);
        }
    }
    assert forall|s: usize| #[trigger] listed(ids, 0, k + 1, s) <==> s == ids[k] || listed(ids, 0, k, s) by {
        if listed(ids, 0, k + 1, s) {
            let j = choose|j: int| 0 <= j < k + 1 && #[trigger] ids[j] == s;
            if j != k {
                assert(0 <= j < k && ids[j] == s);
            }
        }
        if listed(ids, 0, k, s) {
            let j = choose|j: int| 0 <= j < k && #[trigger] ids[j] == s;
            assert(0 <= j < k + 1 && ids[j] == s);
        }
        if s == ids[k] {
            assert(ids[k] == s);
        }
    }
    if listed(ids, k + 1, count, ids[k]) {
        let j = choose|j: int| k + 1 <= j < count && #[trigger] ids[j] == ids[k];
        assert(ids[j] == ids[k]);
    }
    if listed(ids, 0, k, ids[k]) {
        let j = choose|j: int| 0 <= j < k && #[trigger] ids[j] == ids[k];
        assert(ids[j] == ids[k]);
    }
}

/// Every id of a list is listed in the whole of it, and nothing is listed in
/// an empty range.
pub proof fn lemma_listed_all(ids: Seq<usize>)
    ensures
        forall|s: usize| #[trigger] listed(ids, 0, ids.len() as int, s) <==> ids.contains(s),
        forall|s: usize, k: int| !#[trigger] listed(ids, k, k, s),
{
    assert forall|s: usize| #[trigger] listed(ids, 0, ids.len() as int, s) <==> ids.contains(s) by {
        if listed(ids, 0, ids.len() as int, s) {
            let j = choose|j: int| 0 <= j < ids.len() && #[trigger] ids[j] == s;
            assert(ids[j] == s);
        }
        if ids.contains(s) {
            let j = choose|j: int| 0 <= j < ids.len() && ids[j] == s;
            assert(ids[j] == s);
        }
    }
}

/// A world owns the banks, the entity records and the systems. It tells the
/// systems when an entity's aspect changes and runs them once per tick.
///
/// `U` is the data handed to every update, `C` the type of the component
/// values and `S` the type of the systems.
pub struct World<U, C, S> {
    store: Store<C>,
    systems: Vec<S>,
    tick: PhantomData<U>,
}

impl<U, C, S: System<U, C>> World<U, C, S> {
    /// The banks and the entity records.
    pub closed spec fn store(&self) -> Store<C> {
        self.store
    }

    /// The systems, indexed by system id.
    pub closed spec fn systems(&self) -> Seq<S> {
        self.systems@
    }

    /// Whether `system_id` is the id of a registered system.
    pub open spec fn has_system(&self, system_id: usize) -> bool {
        system_id < self.systems().len()
    }

    /// The system with id `system_id`.
    pub open spec fn spec_system(&self, system_id: usize) -> S {
        self.systems()[system_id as int]
    }

    /// Whether the system `system_id` follows the entity `entity`.
    pub open spec fn follows(&self, system_id: usize, entity: usize) -> bool {
        self.spec_system(system_id).members().contains(entity)
    }

    /// Whether the record of the entity `entity` names the system
    /// `system_id`.
    pub open spec fn belongs(&self, entity: usize, system_id: usize) -> bool {
        self.store().spec_entity(entity).systems.contains(system_id)
    }

    /// Whether the aspect of the entity `entity` covers the aspect that the
    /// system `system_id` requires.
    pub open spec fn covers(&self, entity: usize, system_id: usize) -> bool {
        self.spec_system(system_id).required().subset_of(self.store().spec_entity(entity).aspect)
    }

    /// The ids of the registered systems whose required aspect is within
    /// `aspect`.
    pub open spec fn matching(&self, aspect: Set<usize>) -> Set<usize> {
        Set::new(|s: usize| self.has_system(s) && self.spec_system(s).required().subset_of(aspect))
    }

    /// `self` is `other` with, at most, other component values: the systems
    /// are the same and the store has the same shape.
    pub open spec fn reshaped(&self, other: &Self) -> bool {
        &&& self.systems() == other.systems()
        &&& self.store().wf()
        &&& self.store().same_shape(&other.store())
    }

    /// Whether the entity `entity` belongs to exactly the systems whose
    /// required aspect it covers.
    pub open spec fn settled(&self, entity: usize) -> bool {
        forall|s: usize| self.has_system(s) ==> (#[trigger] self.belongs(entity, s) <==> self.covers(entity, s))
    }

    /// Every bank of `other` except that of `component_id` is the same in
    /// `self`.
    pub open spec fn keeps_banks(&self, other: &Self, component_id: usize) -> bool {
        forall|c: usize|
            c != component_id && other.store().has_bank(c) ==> #[trigger] self.store().banks()[c as int]
                == other.store().banks()[c as int]
    }

    /// Every entity record of `other` except that of `entity` is the same in
    /// `self`.
    pub open spec fn keeps_entities(&self, other: &Self, entity: usize) -> bool {
        forall|e: usize|
            e != entity && other.store().has_entity(e) ==> #[trigger] self.store().entities()[e - 1]
                == other.store().entities()[e - 1]
    }

    /// Every component of every entity of `other`, except the component
    /// `component_id` of `entity`, has the same value in `self`.
    pub open spec fn keeps_components(&self, other: &Self, component_id: usize, entity: usize) -> bool {
        forall|c: usize, e: usize|
            other.store().has_entity(e) && !(c == component_id && e == entity)
                ==> #[trigger] self.store().component(c, e) == other.store().component(c, e)
    }

    /// Entities other than `entity` that are settled in `other` are settled
    /// in `self`.
    pub open spec fn keeps_settled(&self, other: &Self, entity: usize) -> bool {
        forall|e: usize|
            e != entity && other.store().has_entity(e) && other.settled(e) ==> #[trigger] self.settled(e)
    }

    /// The list of the system `system_id` once `entity`, whose aspect has
    /// become `aspect`, was offered to the systems it did not belong to.
    pub open spec fn offered(&self, system_id: usize, entity: usize, aspect: Set<usize>) -> Seq<usize> {
        if !self.belongs(entity, system_id) && self.spec_system(system_id).required().subset_of(aspect) {
            self.spec_system(system_id).members().push(entity)
        } else {
            self.spec_system(system_id).members()
        }
    }

    /// The list of the system `system_id` once the systems that `entity`
    /// belonged to have reviewed it, its aspect having become `aspect`.
    pub open spec fn reviewed(&self, system_id: usize, entity: usize, aspect: Set<usize>) -> Seq<usize> {
        if self.belongs(entity, system_id) && !self.spec_system(system_id).required().subset_of(aspect) {
            dropped(self.spec_system(system_id).members(), entity)
        } else {
            self.spec_system(system_id).members()
        }
    }

    /// Every system has its index as its id and follows no entity twice.
    pub open spec fn numbered(&self) -> bool {
        forall|s: usize|
            self.has_system(s)
                ==> (#[trigger] self.spec_system(s)).spec_system_id() == s
                && self.spec_system(s).members().no_duplicates()
    }

    /// The lists of the systems and the records of the entities agree: a
    /// system follows exactly the entities whose record names it.
    pub open spec fn linked(&self) -> bool {
        &&& forall|s: usize, e: usize|
            self.has_system(s) && #[trigger] self.follows(s, e) ==> self.store().has_entity(e) && self.belongs(e, s)
        &&& forall|e: usize, s: usize|
            self.store().has_entity(e) && #[trigger] self.belongs(e, s) ==> self.has_system(s) && self.follows(s, e)
    }

    /// Every entity covers the aspect of each system it belongs to.
    pub open spec fn covered(&self) -> bool {
        forall|e: usize, s: usize|
            self.store().has_entity(e) && #[trigger] self.belongs(e, s) ==> self.has_system(s) && self.covers(e, s)
    }

    /// The store is well formed, and the systems and the entity records
    /// agree on who follows whom.
    pub open spec fn wf(&self) -> bool {
        &&& self.store().wf()
        &&& self.numbered()
        &&& self.linked()
        &&& self.covered()
    }

    /// Whether `stores` records one tick: the update of the system `s` takes
    /// it from `pre[s]` to `post[s]` and the store from `stores[s]` to
    /// `stores[s + 1]`.
    pub open spec fn ticked(pre: Seq<S>, update_item: U, post: Seq<S>, stores: Seq<Store<C>>) -> bool {
        &&& post.len() == pre.len()
        &&& stores.len() == pre.len() + 1
        &&& forall|s: int|
            0 <= s < pre.len() ==> S::updated(pre[s], update_item, #[trigger] stores[s], post[s], stores[s + 1])
    }

    /// A world with no component types, no entities and no systems.
    pub fn new() -> (world: World<U, C, S>)
        ensures
            world.wf(),
            world.store().banks().len() == 0,
            world.store().entities().len() == 0,
            world.systems().len() == 0,
    {
        World { store: Store::new(), systems: Vec::new(), tick: PhantomData }
    }

    /// The number of registered component types.
    pub fn component_count(&self) -> (count: usize)
        ensures
            count == self.store().banks().len(),
    {
        self.store.component_count()
    }

    /// The number of entities.
    pub fn entity_count(&self) -> (count: usize)
        ensures
            count == self.store().entities().len(),
    {
        self.store.entity_count()
    }

    /// The number of registered systems.
    pub fn system_count(&self) -> (count: usize)
        ensures
            count == self.systems().len(),
    {
        self.systems.len()
    }

    /// The record of the entity `id`.
    pub fn entity(&self, id: usize) -> (entity: &Entity)
        requires
            self.store().has_entity(id),
        ensures
            entity@ == self.store().spec_entity(id),
    {
        self.store.entity(id)
    }

    /// The system with id `system_id`.
    pub fn system(&self, system_id: usize) -> (system: &S)
        requires
            self.has_system(system_id),
        ensures
            *system == self.spec_system(system_id),
    {
        &self.systems[system_id]
    }

    /// Spawns an entity and returns its id. Ids count up from 1 and are
    /// never used twice. The entity has no components and is in no system.
    pub fn spawn(&mut self) -> (id: usize)
        requires
            old(self).wf(),
            old(self).store().entities().len() < usize::MAX,
        ensures
            final(self).wf(),
            id == old(self).store().entities().len() + 1,
            final(self).store().entities().len() == id,
            final(self).store().spec_entity(id) == (EntityView {
                id,
                offsets: Seq::<usize>::empty(),
                aspect: Set::<usize>::empty(),
                systems: Set::<usize>::empty(),
            }),
            final(self).keeps_entities(old(self), id),
            forall|c: usize| #[trigger] final(self).store().component(c, id).is_none(),
            final(self).store().banks() == old(self).store().banks(),
            final(self).systems() == old(self).systems(),
    {
        let id: usize = self.store.spawn();
        proof {
            let pre = *old(self);
            assert forall|e: usize| pre.store().has_entity(e) implies #[trigger] self.store().entities()[e - 1]
                == pre.store().entities()[e - 1] by {}
            assert forall|s: usize| self.has_system(s) implies (#[trigger] self.spec_system(s)).spec_system_id() == s
                && self.spec_system(s).members().no_duplicates() by {
                assert(pre.spec_system(s).spec_system_id() == s);
            }
            assert forall|s: usize, e: usize| self.has_system(s) && #[trigger] self.follows(s, e)
                implies self.store().has_entity(e) && self.belongs(e, s) by {
                assert(pre.follows(s, e));
                assert(self.store().entities()[e - 1] == pre.store().entities()[e - 1]);
            }
            assert forall|e: usize, s: usize| self.store().has_entity(e) && #[trigger] self.belongs(e, s)
                implies self.has_system(s) && self.follows(s, e) && self.covers(e, s) by {
                assert(e != id);
                assert(self.store().entities()[e - 1] == pre.store().entities()[e - 1]);
                assert(pre.belongs(e, s));
            }
        }
        id
    }

    /// Registers the component type `id`, which must be the next id: the
    /// number of component types registered so far.
    pub fn register_component(&mut self, id: usize)
        requires
            old(self).wf(),
            id == old(self).store().banks().len(),
        ensures
            final(self).wf(),
            final(self).store().banks().len() == id + 1,
            final(self).store().spec_bank(id).slots == Seq::<C>::empty(),
            final(self).store().spec_bank(id).holes == Seq::<usize>::empty(),
            forall|c: usize|
                c < id ==> #[trigger] final(self).store().banks()[c as int] == old(self).store().banks()[c as int],
            final(self).store().entities() == old(self).store().entities(),
            final(self).systems() == old(self).systems(),
    {
        self.store.register_component(id);
        proof {
            let pre = *old(self);
            assert forall|s: usize| self.has_system(s) implies (#[trigger] self.spec_system(s)).spec_system_id() == s
                && self.spec_system(s).members().no_duplicates() by {
                assert(pre.spec_system(s).spec_system_id() == s);
            }
            assert forall|s: usize, e: usize| self.has_system(s) && #[trigger] self.follows(s, e)
                implies self.store().has_entity(e) && self.belongs(e, s) by {
                assert(pre.follows(s, e));
            }
            assert forall|e: usize, s: usize| self.store().has_entity(e) && #[trigger] self.belongs(e, s)
                implies self.has_system(s) && self.follows(s, e) && self.covers(e, s) by {
                assert(pre.belongs(e, s));
            }
        }
    }

    /// Registers `system`, whose id must be the next id: the number of
    /// systems registered so far. The system follows no entity yet; it is
    /// offered an entity when the entity is next given a component.
    pub fn add_system(&mut self, system: S)
        requires
            old(self).wf(),
            system.spec_system_id() == old(self).systems().len(),
            system.members().len() == 0,
        ensures
            final(self).wf(),
            final(self).systems() == old(self).systems().push(system),
            final(self).store() == old(self).store(),
    {
        self.systems.push(system);
        proof {
            let pre = *old(self);
            let added = pre.systems().len() as usize;
            assert forall|s: usize| self.has_system(s) implies (#[trigger] self.spec_system(s)).spec_system_id() == s
                && self.spec_system(s).members().no_duplicates() by {
                if s != added {
                    assert(pre.spec_system(s).spec_system_id() == s);
                }
            }
            assert forall|s: usize, e: usize| self.has_system(s) && #[trigger] self.follows(s, e)
                implies self.store().has_entity(e) && self.belongs(e, s) by {
                if s != added {
                    assert(pre.follows(s, e));
                }
            }
            assert forall|e: usize, s: usize| self.store().has_entity(e) && #[trigger] self.belongs(e, s)
                implies self.has_system(s) && self.follows(s, e) && self.covers(e, s) by {
                assert(pre.belongs(e, s));
                assert(pre.follows(s, e));
                assert(pre.covers(e, s));
            }
        }
    }

    /// The component with id `component_id` of the entity `entity`, for
    /// reading, or `None` if the entity has no such component.
    pub fn peek_component(&self, component_id: usize, entity: usize) -> (component: Option<&C>)
        requires
            self.wf(),
            self.store().has_bank(component_id),
            self.store().has_entity(entity),
        ensures
            match component {
                Some(value) => self.store().component(component_id, entity) == Some(*value),
                None => self.store().component(component_id, entity).is_none(),
            },
    {
        self.store.peek_component(component_id, entity)
    }

    /// The component with id `component_id` of the entity `entity`, for
    /// reading and writing, or `None` if the entity has no such component.
    /// Whatever is written, the world stays well formed, and every other
    /// component keeps its value.
    pub fn get_component(&mut self, component_id: usize, entity: usize) -> (component: Option<&mut C>)
        requires
            old(self).wf(),
            old(self).store().has_bank(component_id),
            old(self).store().has_entity(entity),
        ensures
            match component {
                Some(value) => {
                    &&& old(self).store().component(component_id, entity) == Some(*value)
                    &&& final(self).store().component(component_id, entity) == Some(*final(value))
                    &&& final(self).store().wrote(&old(self).store(), component_id, entity, *final(value))
                },
                None => {
                    &&& old(self).store().component(component_id, entity).is_none()
                    &&& final(self).store().banks() == old(self).store().banks()
                    &&& final(self).store().entities() == old(self).store().entities()
                },
            },
            final(self).reshaped(old(self)),
            final(self).wf(),
            final(self).keeps_components(old(self), component_id, entity),
    {
        proof {
            let pre = *old(self);
            assert forall|post: Self| post.reshaped(&pre) implies #[trigger] post.wf() by {
                Self::lemma_reshaped(&pre, &post);
            }
        }
        self.store.get_component(component_id, entity)
    }

    /// Advances the world by one tick: every system is updated once with
    /// `update_item`, in the order of the system ids.
    pub fn update(&mut self, update_item: U)
        requires
            old(self).wf(),
        ensures
            final(self).wf(),
            final(self).store().same_shape(&old(self).store()),
            final(self).systems().len() == old(self).systems().len(),
            forall|s: usize|
                old(self).has_system(s)
                    ==> (#[trigger] final(self).spec_system(s)).members() == old(self).spec_system(s).members()
                    && final(self).spec_system(s).required() == old(self).spec_system(s).required(),
            exists|stores: Seq<Store<C>>|
                #![trigger Self::ticked(old(self).systems(), update_item, final(self).systems(), stores)]
                {
                    &&& Self::ticked(old(self).systems(), update_item, final(self).systems(), stores)
                    &&& stores[0] == old(self).store()
                    &&& stores.last() == final(self).store()
                },
    {
        let count: usize = self.systems.len();
        let ghost mut stores: Seq<Store<C>> = seq![self.store];
        let mut i: usize = 0;
        while i < count
            invariant
                i <= count,
                count == self.systems().len(),
                count == old(self).systems().len(),
                self.wf(),
                self.store().same_shape(&old(self).store()),
                stores.len() == i + 1,
                stores[0] == old(self).store(),
                stores.last() == self.store(),
                forall|s: int| i <= s < count ==> self.systems()[s] == old(self).systems()[s],
                forall|s: usize|
                    s < i ==> (#[trigger] self.spec_system(s)).members() == old(self).spec_system(s).members()
                        && self.spec_system(s).required() == old(self).spec_system(s).required(),
                forall|s: int|
                    0 <= s < i ==> S::updated(
                        old(self).systems()[s],
                        update_item,
                        #[trigger] stores[s],
                        self.systems()[s],
                        stores[s + 1],
                    ),
            decreases count - i,
        {
            let ghost before = *self;
            assert forall|k: int| 0 <= k < self.systems()[i as int].members().len() implies self.store().has_entity(
                #[trigger] self.systems()[i as int].members()[k],
            ) by {
                assert(before.follows(i, before.spec_system(i).members()[k]));
            }
            self.systems[i].update(&update_item, &mut self.store);
            proof {
                stores = stores.push(self.store);
                self.store().lemma_same_shape_trans(&before.store(), &old(self).store());
                Self::lemma_updated(&before, self, i);
                assert(before.spec_system(i) == old(self).spec_system(i));
                assert forall|s: usize| s < i + 1
                    implies (#[trigger] self.spec_system(s)).members() == old(self).spec_system(s).members()
                    && self.spec_system(s).required() == old(self).spec_system(s).required() by {
                    if s < i {
                        assert(self.spec_system(s) == before.spec_system(s));
                    }
                }
            }
            i += 1;
        }
        proof {
            assert(Self::ticked(old(self).systems(), update_item, self.systems(), stores));
        }
    }

    /// Gives the entity `entity` a component with id `component_id` and the
    /// value `component`. If the entity has such a component already, the new
    /// value takes its place. The entity is then offered to every system it
    /// does not belong to, and joins those whose required aspect it covers:
    /// afterwards it belongs to exactly the systems that match its aspect.
    pub fn map_component(&mut self, component_id: usize, component: C, entity: usize)
        requires
            old(self).wf(),
            old(self).store().has_bank(component_id),
            old(self).store().has_entity(entity),
        ensures
            final(self).wf(),
            final(self).store().banks().len() == old(self).store().banks().len(),
            final(self).store().entities().len() == old(self).store().entities().len(),
            final(self).systems().len() == old(self).systems().len(),
            final(self).store().spec_bank(component_id)
                == old(self).store().freed(component_id, entity).added(component),
            final(self).store().spec_entity(entity) == (EntityView {
                systems: old(self).matching(old(self).store().spec_entity(entity).aspect.insert(component_id)),
                ..old(self).store().spec_entity(entity).attached(
                    component_id,
                    old(self).store().freed(component_id, entity).next_slot(),
                )
            }),
            final(self).keeps_banks(old(self), component_id),
            final(self).keeps_entities(old(self), entity),
            final(self).store().component(component_id, entity) == Some(component),
            final(self).keeps_components(old(self), component_id, entity),
            forall|s: usize|
                old(self).has_system(s)
                    ==> (#[trigger] final(self).spec_system(s)).required() == old(self).spec_system(s).required()
                    && final(self).spec_system(s).members() == old(self).offered(
                    s,
                    entity,
                    old(self).store().spec_entity(entity).aspect.insert(component_id),
                ),
            final(self).settled(entity),
            final(self).keeps_settled(old(self), entity),
    {
        let ghost pre = *old(self);
        let slot: usize = self.store.attach(component_id, component, entity);
        let ghost mid = *self;
        let ghost aspect = pre.store().spec_entity(entity).aspect.insert(component_id);
        proof {
            Self::lemma_attached(&pre, &mid, component_id, entity, slot);
        }
        let count: usize = self.systems.len();
        let mut i: usize = 0;
        while i < count
            invariant
                i <= count,
                count == self.systems().len(),
                count == pre.systems().len(),
                pre.wf(),
                pre.store().has_entity(entity),
                mid.store().has_entity(entity),
                mid.store().spec_entity(entity).aspect == aspect,
                mid.store().spec_entity(entity).systems == pre.store().spec_entity(entity).systems,
                self.wf(),
                self.store().banks() == mid.store().banks(),
                self.store().entities().len() == mid.store().entities().len(),
                self.store().same_layout(&mid.store()),
                forall|e: usize|
                    e != entity && mid.store().has_entity(e) ==> #[trigger] self.store().entities()[e - 1]
                        == mid.store().entities()[e - 1],
                forall|s: usize|
                    #[trigger] self.belongs(entity, s)
                        <==> pre.belongs(entity, s) || (s < i && pre.spec_system(s).required().subset_of(aspect)),
                forall|s: usize| i <= s < count ==> #[trigger] self.systems()[s as int] == pre.systems()[s as int],
                forall|s: usize|
                    s < i ==> (#[trigger] self.spec_system(s)).required() == pre.spec_system(s).required()
                        && self.spec_system(s).members() == pre.offered(s, entity, aspect),
            decreases count - i,
        {
            let ghost before = *self;
            assert(before.spec_system(i).spec_system_id() == i);
            assert(before.spec_system(i) == pre.spec_system(i));
            let sys_id: usize = self.systems[i].system_id();
            if !self.store.entity(entity).in_system(sys_id) {
                let added: bool = self.systems[i].possible_add(self.store.entity(entity));
                if added {
                    self.store.join(entity, sys_id);
                }
            }
            proof {
                assert(before.store().spec_entity(entity).aspect == aspect);
                assert(before.store().spec_entity(entity).id == entity);
                assert(self.systems() =~= before.systems().update(i as int, self.spec_system(i)));
                Self::lemma_offered(&before, self, i, entity);
                assert forall|e: usize| e != entity && mid.store().has_entity(e)
                    implies #[trigger] self.store().entities()[e - 1] == mid.store().entities()[e - 1] by {
                    assert(before.store().entities()[e - 1] == mid.store().entities()[e - 1]);
                }
                assert forall|s: usize| #[trigger]
                    self.belongs(entity, s)
                        <==> pre.belongs(entity, s) || (s < i + 1
                        && pre.spec_system(s).required().subset_of(aspect)) by {
                    assert(before.belongs(entity, s)
                        <==> pre.belongs(entity, s) || (s < i && pre.spec_system(s).required().subset_of(aspect)));
                    if s == i && pre.belongs(entity, s) {
                        assert(pre.covers(entity, s));
                    }
                }
                assert forall|s: usize| i + 1 <= s < count implies #[trigger] self.systems()[s as int]
                    == pre.systems()[s as int] by {
                    assert(before.systems()[s as int] == pre.systems()[s as int]);
                }
                assert forall|s: usize| s < i + 1
                    implies (#[trigger] self.spec_system(s)).required() == pre.spec_system(s).required()
                        && self.spec_system(s).members() == pre.offered(s, entity, aspect) by {
                    if s < i {
                        assert(self.spec_system(s) == before.spec_system(s));
                    } else {
                        assert(before.belongs(entity, s) <==> pre.belongs(entity, s));
                    }
                }
                assert forall|e: usize| mid.store().has_entity(e) implies (#[trigger] self.store().spec_entity(e)).id
                    == mid.store().spec_entity(e).id
                        && self.store().spec_entity(e).offsets == mid.store().spec_entity(e).offsets
                        && self.store().spec_entity(e).aspect == mid.store().spec_entity(e).aspect by {
                    assert(before.store().spec_entity(e).id == mid.store().spec_entity(e).id);
                    if e != entity {
                        assert(self.store().entities()[e - 1] == mid.store().entities()[e - 1]);
                    }
                }
                assert forall|c: usize| mid.store().has_bank(c) implies (#[trigger] self.store().spec_bank(c)).holes
                    == mid.store().spec_bank(c).holes
                        && self.store().spec_bank(c).slots.len() == mid.store().spec_bank(c).slots.len() by {}
            }
            i += 1;
        }
        proof {
            let after = *self;
            let record = after.store().spec_entity(entity);
            let expected = EntityView {
                systems: pre.matching(aspect),
                ..pre.store().spec_entity(entity).attached(component_id, slot)
            };
            assert(record.id == expected.id);
            assert(record.offsets == expected.offsets);
            assert(record.aspect == expected.aspect);
            assert forall|s: usize| record.systems.contains(s) <==> expected.systems.contains(s) by {
                assert(after.belongs(entity, s)
                    <==> pre.belongs(entity, s) || (s < count && pre.spec_system(s).required().subset_of(aspect)));
                if pre.belongs(entity, s) {
                    assert(pre.has_system(s) && pre.covers(entity, s));
                }
            }
            assert(record.systems =~= expected.systems);
            assert forall|c: usize| c != component_id && pre.store().has_bank(c)
                implies #[trigger] after.store().banks()[c as int]
                == pre.store().banks()[c as int] by {
                assert(mid.store().banks()[c as int] == pre.store().banks()[c as int]);
            }
            assert forall|e: usize| e != entity && pre.store().has_entity(e)
                implies #[trigger] after.store().entities()[e - 1] == pre.store().entities()[e - 1] by {
                assert(after.store().entities()[e - 1] == mid.store().entities()[e - 1]);
                assert(mid.store().entities()[e - 1] == pre.store().entities()[e - 1]);
            }
            assert forall|c: usize, e: usize| pre.store().has_entity(e) implies #[trigger] after.store().component(c, e)
                == mid.store().component(c, e) by {
                assert(after.store().spec_entity(e).offsets == mid.store().spec_entity(e).offsets);
            }
            assert forall|c: usize, e: usize|
                pre.store().has_entity(e) && !(c == component_id && e == entity)
                    implies #[trigger] after.store().component(c, e) == pre.store().component(c, e) by {
                assert(after.store().component(c, e) == mid.store().component(c, e));
                assert(mid.store().component(c, e) == pre.store().component(c, e));
            }
            assert(after.store().component(component_id, entity) == mid.store().component(component_id, entity));
            assert forall|s: usize| after.has_system(s)
                implies (#[trigger] after.belongs(entity, s) <==> after.covers(entity, s)) by {
                assert(after.belongs(entity, s)
                    <==> pre.belongs(entity, s) || (s < count && pre.spec_system(s).required().subset_of(aspect)));
                assert(after.spec_system(s).required() == pre.spec_system(s).required());
                if pre.belongs(entity, s) {
                    assert(pre.covers(entity, s));
                }
            }
            Self::lemma_settled_kept(&pre, &after, entity);
        }
    }

    /// Takes the component with id `component_id` away from the entity
    /// `entity` and gives its slot back. Every system that the entity
    /// belongs to is then asked to review it, and the entity leaves those
    /// whose required aspect it no longer covers. Nothing changes if the
    /// entity has no such component.
    pub fn unmap_component(&mut self, component_id: usize, entity: usize)
        requires
            old(self).wf(),
            old(self).store().has_bank(component_id),
            old(self).store().has_entity(entity),
        ensures
            final(self).wf(),
            final(self).store().banks().len() == old(self).store().banks().len(),
            final(self).store().entities().len() == old(self).store().entities().len(),
            final(self).systems().len() == old(self).systems().len(),
            final(self).store().spec_bank(component_id) == old(self).store().freed(component_id, entity),
            final(self).store().spec_entity(entity) == (EntityView {
                systems: old(self).store().spec_entity(entity).systems.intersect(
                    old(self).matching(old(self).store().spec_entity(entity).aspect.remove(component_id)),
                ),
                ..old(self).store().spec_entity(entity).detached(component_id)
            }),
            final(self).keeps_banks(old(self), component_id),
            final(self).keeps_entities(old(self), entity),
            final(self).store().component(component_id, entity).is_none(),
            final(self).keeps_components(old(self), component_id, entity),
            forall|s: usize|
                old(self).has_system(s)
                    ==> (#[trigger] final(self).spec_system(s)).required() == old(self).spec_system(s).required()
                    && final(self).spec_system(s).members() == old(self).reviewed(
                    s,
                    entity,
                    old(self).store().spec_entity(entity).aspect.remove(component_id),
                ),
            old(self).settled(entity) ==> final(self).settled(entity),
            final(self).keeps_settled(old(self), entity),
    {
        let ghost pre = *old(self);
        self.store.detach(component_id, entity);
        let ghost mid = *self;
        let ghost aspect = pre.store().spec_entity(entity).aspect.remove(component_id);
        proof {
            Self::lemma_detached(&pre, &mid, component_id, entity);
        }
        let ids: Vec<usize> = self.store.entity(entity).systems();
        let count: usize = ids.len();
        let mut k: usize = 0;
        proof {
            assert forall|s: usize| pre.belongs(entity, s) implies listed(ids@, 0, count as int, s) by {
                assert(ids@.to_set().contains(s));
                assert(ids@.contains(s));
                let j = choose|j: int| 0 <= j < ids@.len() && ids@[j] == s;
                assert(ids@[j] == s);
            }
        }
        while k < count
            invariant
                k <= count,
                count == ids@.len(),
                ids@.no_duplicates(),
                forall|j: int| 0 <= j < count ==> pre.belongs(entity, #[trigger] ids@[j]),
                pre.wf(),
                pre.store().has_entity(entity),
                pre.store().spec_entity(entity).id == entity,
                mid.store().has_entity(entity),
                mid.store().spec_entity(entity).aspect == aspect,
                self.systems().len() == pre.systems().len(),
                self.store().wf(),
                self.numbered(),
                self.linked(),
                self.store().banks() == mid.store().banks(),
                self.store().entities().len() == mid.store().entities().len(),
                self.store().same_layout(&mid.store()),
                forall|e: usize|
                    e != entity && mid.store().has_entity(e) ==> #[trigger] self.store().entities()[e - 1]
                        == mid.store().entities()[e - 1],
                forall|s: usize|
                    #[trigger] self.belongs(entity, s)
                        <==> pre.belongs(entity, s)
                        && (pre.spec_system(s).required().subset_of(aspect) || listed(ids@, k as int, count as int, s)),
                forall|e: usize, s: usize|
                    self.store().has_entity(e) && #[trigger] self.belongs(e, s)
                        ==> self.has_system(s) && (self.covers(e, s) || (e == entity
                        && listed(ids@, k as int, count as int, s))),
                forall|s: usize|
                    pre.has_system(s) ==> (#[trigger] self.spec_system(s)).required() == pre.spec_system(s).required(),
                forall|s: usize|
                    pre.has_system(s) && !listed(ids@, 0, k as int, s) ==> #[trigger] self.systems()[s as int]
                        == pre.systems()[s as int],
                forall|s: usize|
                    pre.has_system(s) && listed(ids@, 0, k as int, s) ==> (#[trigger] self.spec_system(s)).members()
                        == if !pre.spec_system(s).required().subset_of(aspect) {
                        dropped(pre.spec_system(s).members(), entity)
                    } else {
                        pre.spec_system(s).members()
                    },
            decreases count - k,
        {
            let ghost before = *self;
            let sys_id: usize = ids[k];
            proof {
                assert(pre.belongs(entity, sys_id));
                assert(pre.has_system(sys_id));
                assert(listed(ids@, k as int, count as int, sys_id)) by {
                    assert(ids@[k as int] == sys_id);
                }
                assert(!listed(ids@, 0, k as int, sys_id)) by {
                    if listed(ids@, 0, k as int, sys_id) {
                        let j = choose|j: int| 0 <= j < k && #[trigger] ids@[j] == sys_id;
                        assert(ids@[j] == ids@[k as int]);
                    }
                }
                assert(before.belongs(entity, sys_id));
                assert(before.follows(sys_id, entity));
                assert(before.systems()[sys_id as int] == pre.systems()[sys_id as int]);
            }
            let removed: bool = self.systems[sys_id].possible_remove(self.store.entity(entity));
            if removed {
                self.store.leave(entity, sys_id);
            }
            proof {
                assert(before.store().spec_entity(entity).aspect == aspect);
                assert(self.systems() =~= before.systems().update(sys_id as int, self.spec_system(sys_id)));
                Self::lemma_reviewed(&before, self, sys_id, entity, removed);
                lemma_listed_step(ids@, k as int);
                assert forall|e: usize| e != entity && mid.store().has_entity(e)
                    implies #[trigger] self.store().entities()[e - 1] == mid.store().entities()[e - 1] by {
                    assert(before.store().entities()[e - 1] == mid.store().entities()[e - 1]);
                }
                assert forall|s: usize| #[trigger]
                    self.belongs(entity, s)
                        <==> pre.belongs(entity, s)
                        && (pre.spec_system(s).required().subset_of(aspect)
                        || listed(ids@, k + 1, count as int, s)) by {
                    assert(before.belongs(entity, s)
                        <==> pre.belongs(entity, s)
                        && (pre.spec_system(s).required().subset_of(aspect)
                        || listed(ids@, k as int, count as int, s)));
                    assert(before.spec_system(sys_id).required() == pre.spec_system(sys_id).required());
                }
                assert forall|e: usize, s: usize| self.store().has_entity(e) && #[trigger] self.belongs(e, s)
                    implies self.has_system(s) && (self.covers(e, s) || (e == entity
                        && listed(ids@, k + 1, count as int, s))) by {
                    if e != entity {
                        assert(self.store().entities()[e - 1] == before.store().entities()[e - 1]);
                    }
                    assert(before.belongs(e, s));
                    assert(before.has_system(s));
                    assert(self.covers(e, s) == before.covers(e, s));
                }
                assert forall|s: usize| pre.has_system(s) implies (#[trigger] self.spec_system(s)).required()
                    == pre.spec_system(s).required() by {
                    assert(before.spec_system(s).required() == pre.spec_system(s).required());
                }
                assert forall|s: usize| pre.has_system(s) && !listed(ids@, 0, k + 1, s)
                    implies #[trigger] self.systems()[s as int]
                    == pre.systems()[s as int] by {
                    assert(before.systems()[s as int] == pre.systems()[s as int]);
                }
                assert forall|s: usize| pre.has_system(s) && listed(ids@, 0, k + 1, s)
                    implies (#[trigger] self.spec_system(s)).members()
                        == if !pre.spec_system(s).required().subset_of(aspect) {
                    dropped(pre.spec_system(s).members(), entity)
                } else {
                    pre.spec_system(s).members()
                } by {
                    if s != sys_id {
                        assert(self.spec_system(s) == before.spec_system(s));
                        assert(listed(ids@, 0, k as int, s));
                    }
                }
                assert forall|e: usize| mid.store().has_entity(e) implies (#[trigger] self.store().spec_entity(e)).id
                    == mid.store().spec_entity(e).id
                        && self.store().spec_entity(e).offsets == mid.store().spec_entity(e).offsets
                        && self.store().spec_entity(e).aspect == mid.store().spec_entity(e).aspect by {
                    assert(before.store().spec_entity(e).id == mid.store().spec_entity(e).id);
                    if e != entity {
                        assert(self.store().entities()[e - 1] == mid.store().entities()[e - 1]);
                    }
                }
                assert forall|c: usize| mid.store().has_bank(c) implies (#[trigger] self.store().spec_bank(c)).holes
                    == mid.store().spec_bank(c).holes
                        && self.store().spec_bank(c).slots.len() == mid.store().spec_bank(c).slots.len() by {}
            }
            k += 1;
        }
        proof {
            let after = *self;
            assert forall|s: usize| !listed(ids@, count as int, count as int, s) by {}
            let record = after.store().spec_entity(entity);
            let expected = EntityView {
                systems: pre.store().spec_entity(entity).systems.intersect(pre.matching(aspect)),
                ..pre.store().spec_entity(entity).detached(component_id)
            };
            assert(record.id == expected.id);
            assert(record.offsets == expected.offsets);
            assert(record.aspect == expected.aspect);
            assert forall|s: usize| record.systems.contains(s) <==> expected.systems.contains(s) by {
                assert(after.belongs(entity, s)
                    <==> pre.belongs(entity, s)
                    && (pre.spec_system(s).required().subset_of(aspect)
                    || listed(ids@, count as int, count as int, s)));
                if pre.belongs(entity, s) {
                    assert(pre.has_system(s));
                }
            }
            assert(record.systems =~= expected.systems);
            assert forall|c: usize| c != component_id && pre.store().has_bank(c)
                implies #[trigger] after.store().banks()[c as int]
                == pre.store().banks()[c as int] by {
                assert(mid.store().banks()[c as int] == pre.store().banks()[c as int]);
            }
            assert forall|e: usize| e != entity && pre.store().has_entity(e)
                implies #[trigger] after.store().entities()[e - 1] == pre.store().entities()[e - 1] by {
                assert(after.store().entities()[e - 1] == mid.store().entities()[e - 1]);
                assert(mid.store().entities()[e - 1] == pre.store().entities()[e - 1]);
            }
            assert forall|c: usize, e: usize| pre.store().has_entity(e) implies #[trigger] after.store().component(c, e)
                == mid.store().component(c, e) by {
                assert(after.store().spec_entity(e).offsets == mid.store().spec_entity(e).offsets);
            }
            assert forall|c: usize, e: usize|
                pre.store().has_entity(e) && !(c == component_id && e == entity)
                    implies #[trigger] after.store().component(c, e) == pre.store().component(c, e) by {
                assert(after.store().component(c, e) == mid.store().component(c, e));
                assert(mid.store().component(c, e) == pre.store().component(c, e));
            }
            assert(after.store().component(component_id, entity) == mid.store().component(component_id, entity));
            assert forall|e: usize, s: usize| after.store().has_entity(e) && #[trigger] after.belongs(e, s)
                implies after.has_system(s) && after.covers(e, s) by {}
            assert forall|s: usize| pre.has_system(s) implies (#[trigger] after.spec_system(s)).required()
                == pre.spec_system(s).required() && after.spec_system(s).members() == if pre.belongs(entity, s)
                && !pre.spec_system(s).required().subset_of(after.store().spec_entity(entity).aspect) {
                dropped(pre.spec_system(s).members(), entity)
            } else {
                pre.spec_system(s).members()
            } by {
                if listed(ids@, 0, count as int, s) {
                    let j = choose|j: int| 0 <= j < count && #[trigger] ids@[j] == s;
                    assert(pre.belongs(entity, ids@[j]));
                } else {
                    assert(after.systems()[s as int] == pre.systems()[s as int]);
                    if pre.belongs(entity, s) {
                        assert(ids@.to_set().contains(s));
                        assert(ids@.contains(s));
                        let j = choose|j: int| 0 <= j < ids@.len() && ids@[j] == s;
                        assert(0 <= j < count && ids@[j] == s);
                    }
                }
            }
            Self::lemma_settled_kept(&pre, &after, entity);
            if pre.settled(entity) {
                assert forall|s: usize| after.has_system(s) implies (#[trigger] after.belongs(entity, s)
                    <==> after.covers(entity, s)) by {
                    assert(after.spec_system(s).required() == pre.spec_system(s).required());
                    assert(pre.belongs(entity, s) <==> pre.covers(entity, s));
                    assert(record.systems.contains(s) <==> expected.systems.contains(s));
                }
            }
        }
    }

    /// A world keeps its store well formed, its systems numbered and its
    /// lists and records in agreement when an entity loses a component and
    /// nothing else changes.
    proof fn lemma_detached(pre: &Self, post: &Self, component_id: usize, entity: usize)
        requires
            pre.wf(),
            pre.store().has_entity(entity),
            post.store().wf(),
            post.systems() == pre.systems(),
            post.store().entities().len() == pre.store().entities().len(),
            post.store().spec_entity(entity) == pre.store().spec_entity(entity).detached(component_id),
            forall|e: usize|
                e != entity && pre.store().has_entity(e) ==> #[trigger] post.store().entities()[e - 1]
                    == pre.store().entities()[e - 1],
        ensures
            post.numbered(),
            post.linked(),
            forall|s: usize| #[trigger] post.belongs(entity, s) <==> pre.belongs(entity, s),
            forall|e: usize, s: usize|
                post.store().has_entity(e) && #[trigger] post.belongs(e, s) ==> post.has_system(s) && (post.covers(e, s)
                    || e == entity),
    {
        assert forall|s: usize| post.has_system(s) implies (#[trigger] post.spec_system(s)).spec_system_id() == s
            && post.spec_system(s).members().no_duplicates() by {
            assert(pre.spec_system(s).spec_system_id() == s);
        }
        assert forall|s: usize, e: usize| post.has_system(s) && #[trigger] post.follows(s, e)
            implies post.store().has_entity(e) && post.belongs(e, s) by {
            assert(pre.follows(s, e));
            assert(pre.belongs(e, s));
            if e != entity {
                assert(post.store().entities()[e - 1] == pre.store().entities()[e - 1]);
            }
        }
        assert forall|e: usize, s: usize| post.store().has_entity(e) && #[trigger] post.belongs(e, s)
            implies post.has_system(s) && post.follows(s, e) && (post.covers(e, s) || e == entity) by {
            if e != entity {
                assert(post.store().entities()[e - 1] == pre.store().entities()[e - 1]);
            }
            assert(pre.belongs(e, s));
            assert(pre.follows(s, e));
            assert(pre.covers(e, s));
        }
    }

    /// A world keeps its store well formed, its systems numbered and its
    /// lists and records in agreement when a system reviews an entity that
    /// belongs to it, and the entity leaves it if the system dropped it.
    proof fn lemma_reviewed(pre: &Self, post: &Self, system_id: usize, entity: usize, leaves: bool)
        requires
            pre.store().wf(),
            pre.numbered(),
            pre.linked(),
            pre.has_system(system_id),
            pre.store().has_entity(entity),
            pre.belongs(entity, system_id),
            post.systems() == pre.systems().update(system_id as int, post.spec_system(system_id)),
            post.spec_system(system_id).spec_system_id() == pre.spec_system(system_id).spec_system_id(),
            post.spec_system(system_id).required() == pre.spec_system(system_id).required(),
            !leaves ==> post.spec_system(system_id).members() == pre.spec_system(system_id).members() && post.store()
                == pre.store(),
            leaves ==> {
                &&& post.spec_system(system_id).members() == dropped(pre.spec_system(system_id).members(), entity)
                &&& post.store().wf()
                &&& post.store().banks() == pre.store().banks()
                &&& post.store().entities().len() == pre.store().entities().len()
                &&& post.store().spec_entity(entity) == pre.store().spec_entity(entity).left(system_id)
                &&& forall|e: usize|
                    e != entity && pre.store().has_entity(e) ==> #[trigger] post.store().entities()[e - 1]
                        == pre.store().entities()[e - 1]
            },
        ensures
            post.store().wf(),
            post.numbered(),
            post.linked(),
            post.store().banks() == pre.store().banks(),
            post.store().entities().len() == pre.store().entities().len(),
            forall|e: usize|
                e != entity && pre.store().has_entity(e) ==> #[trigger] post.store().entities()[e - 1]
                    == pre.store().entities()[e - 1],
            post.store().spec_entity(entity).id == pre.store().spec_entity(entity).id,
            post.store().spec_entity(entity).offsets == pre.store().spec_entity(entity).offsets,
            post.store().spec_entity(entity).aspect == pre.store().spec_entity(entity).aspect,
            forall|s: usize| #[trigger] post.belongs(entity, s)
                <==> pre.belongs(entity, s) && (s != system_id || !leaves),
            forall|e: usize, s: usize|
                pre.store().has_entity(e) && pre.has_system(s) ==> #[trigger] post.covers(e, s) == pre.covers(e, s),
    {
        let list = pre.spec_system(system_id).members();
        assert(list.no_duplicates()) by {
            assert(pre.spec_system(system_id).spec_system_id() == system_id);
        }
        lemma_dropped(list, entity);
        assert forall|s: usize| post.has_system(s) implies (#[trigger] post.spec_system(s)).spec_system_id() == s
            && post.spec_system(s).members().no_duplicates() by {
            assert(pre.spec_system(s).spec_system_id() == s);
        }
        assert forall|s: usize, e: usize| post.has_system(s) && #[trigger] post.follows(s, e)
            implies post.store().has_entity(e) && post.belongs(e, s) by {
            if s == system_id && leaves {
                assert(dropped(list, entity).contains(e));
                assert(pre.follows(s, e));
                assert(pre.belongs(e, s));
                assert(e != entity);
                assert(post.store().entities()[e - 1] == pre.store().entities()[e - 1]);
            } else {
                assert(pre.follows(s, e));
                assert(pre.belongs(e, s));
                if leaves && e != entity {
                    assert(post.store().entities()[e - 1] == pre.store().entities()[e - 1]);
                }
            }
        }
        assert forall|e: usize, s: usize| post.store().has_entity(e) && #[trigger] post.belongs(e, s)
            implies post.has_system(s) && post.follows(s, e) by {
            if leaves && e != entity {
                assert(post.store().entities()[e - 1] == pre.store().entities()[e - 1]);
            }
            assert(pre.belongs(e, s));
            assert(pre.follows(s, e));
            if s == system_id && leaves {
                assert(e != entity);
                assert(dropped(list, entity).contains(e));
            }
        }
        assert forall|e: usize, s: usize| pre.store().has_entity(e) && pre.has_system(s)
            implies #[trigger] post.covers(e, s) == pre.covers(e, s) by {
            if leaves && e != entity {
                assert(post.store().entities()[e - 1] == pre.store().entities()[e - 1]);
            }
        }
    }

    /// Takes every component away from the entity `entity`: the entity
    /// leaves every system it belongs to, whatever the system requires, and
    /// the slots of its components are given back.
    pub fn remove_all_components(&mut self, entity: usize)
        requires
            old(self).wf(),
            old(self).store().has_entity(entity),
        ensures
            final(self).wf(),
            final(self).store().banks().len() == old(self).store().banks().len(),
            final(self).store().entities().len() == old(self).store().entities().len(),
            final(self).systems().len() == old(self).systems().len(),
            final(self).store().spec_entity(entity) == (EntityView {
                id: entity,
                offsets: Seq::new(old(self).store().spec_entity(entity).offsets.len(), |i: int| UNSET),
                aspect: Set::<usize>::empty(),
                systems: Set::<usize>::empty(),
            }),
            forall|c: usize|
                old(self).store().has_bank(c)
                    ==> #[trigger] final(self).store().spec_bank(c) == old(self).store().freed(c, entity),
            final(self).keeps_entities(old(self), entity),
            forall|c: usize| #[trigger] final(self).store().component(c, entity).is_none(),
            forall|c: usize, e: usize|
                old(self).store().has_entity(e) && e != entity ==> #[trigger] final(self).store().component(c, e)
                    == old(self).store().component(c, e),
            forall|s: usize|
                old(self).has_system(s)
                    ==> (#[trigger] final(self).spec_system(s)).required() == old(self).spec_system(s).required()
                    && final(self).spec_system(s).members() == dropped(old(self).spec_system(s).members(), entity),
    {
        let ghost pre = *old(self);
        assert(pre.store().spec_entity(entity).id == entity);
        let ids: Vec<usize> = self.store.entity(entity).systems();
        let count: usize = ids.len();
        let mut k: usize = 0;
        proof {
            lemma_listed_all(ids@);
            assert forall|s: usize| pre.belongs(entity, s) <==> listed(ids@, 0, count as int, s) by {
                assert(ids@.to_set().contains(s) <==> ids@.contains(s));
            }
        }
        while k < count
            invariant
                k <= count,
                count == ids@.len(),
                ids@.no_duplicates(),
                forall|s: usize| pre.belongs(entity, s) <==> #[trigger] listed(ids@, 0, count as int, s),
                pre.wf(),
                pre.store().has_entity(entity),
                self.systems().len() == pre.systems().len(),
                self.wf(),
                self.store().banks() == pre.store().banks(),
                self.store().entities().len() == pre.store().entities().len(),
                forall|e: usize|
                    e != entity && pre.store().has_entity(e) ==> #[trigger] self.store().entities()[e - 1]
                        == pre.store().entities()[e - 1],
                self.store().spec_entity(entity).id == entity,
                self.store().spec_entity(entity).offsets == pre.store().spec_entity(entity).offsets,
                self.store().spec_entity(entity).aspect == pre.store().spec_entity(entity).aspect,
                forall|s: usize| #[trigger] self.belongs(entity, s) <==> listed(ids@, k as int, count as int, s),
                forall|s: usize|
                    pre.has_system(s) ==> (#[trigger] self.spec_system(s)).required() == pre.spec_system(s).required(),
                forall|s: usize|
                    pre.has_system(s) && !listed(ids@, 0, k as int, s) ==> #[trigger] self.systems()[s as int]
                        == pre.systems()[s as int],
                forall|s: usize|
                    pre.has_system(s) && listed(ids@, 0, k as int, s) ==> (#[trigger] self.spec_system(s)).members()
                        == dropped(pre.spec_system(s).members(), entity),
            decreases count - k,
        {
            let ghost before = *self;
            let sys_id: usize = ids[k];
            proof {
                lemma_listed_step(ids@, k as int);
                assert(listed(ids@, k as int, count as int, sys_id));
                assert(before.belongs(entity, sys_id));
                assert(before.has_system(sys_id));
                assert(before.systems()[sys_id as int] == pre.systems()[sys_id as int]);
            }
            self.systems[sys_id].must_remove(self.store.entity(entity));
            self.store.leave(entity, sys_id);
            proof {
                assert(self.systems() =~= before.systems().update(sys_id as int, self.spec_system(sys_id)));
                Self::lemma_reviewed(&before, self, sys_id, entity, true);
                assert forall|e: usize, s: usize| self.store().has_entity(e) && #[trigger] self.belongs(e, s)
                    implies self.has_system(s) && self.covers(e, s) by {
                    if e != entity {
                        assert(self.store().entities()[e - 1] == before.store().entities()[e - 1]);
                    }
                    assert(before.belongs(e, s));
                    assert(before.covers(e, s));
                    assert(self.covers(e, s) == before.covers(e, s));
                }
                assert forall|e: usize| e != entity && pre.store().has_entity(e)
                    implies #[trigger] self.store().entities()[e - 1] == pre.store().entities()[e - 1] by {
                    assert(before.store().entities()[e - 1] == pre.store().entities()[e - 1]);
                }
                assert forall|s: usize| #[trigger] self.belongs(entity, s)
                    <==> listed(ids@, k + 1, count as int, s) by {
                    assert(before.belongs(entity, s) <==> listed(ids@, k as int, count as int, s));
                }
                assert forall|s: usize| pre.has_system(s) implies (#[trigger] self.spec_system(s)).required()
                    == pre.spec_system(s).required() by {
                    assert(before.spec_system(s).required() == pre.spec_system(s).required());
                }
                assert forall|s: usize| pre.has_system(s) && !listed(ids@, 0, k + 1, s)
                    implies #[trigger] self.systems()[s as int]
                    == pre.systems()[s as int] by {
                    assert(before.systems()[s as int] == pre.systems()[s as int]);
                }
                assert forall|s: usize| pre.has_system(s) && listed(ids@, 0, k + 1, s)
                    implies (#[trigger] self.spec_system(s)).members()
                        == dropped(pre.spec_system(s).members(), entity) by {
                    if s != sys_id {
                        assert(self.spec_system(s) == before.spec_system(s));
                        assert(listed(ids@, 0, k as int, s));
                    }
                }
            }
            k += 1;
        }
        let ghost mid = *self;
        proof {
            lemma_listed_all(ids@);
            assert forall|s: usize| !(#[trigger] mid.store().spec_entity(entity).systems.contains(s)) by {
                assert(mid.belongs(entity, s) <==> listed(ids@, count as int, count as int, s));
            }
            assert(mid.store().spec_entity(entity).systems =~= Set::<usize>::empty());
            assert forall|s: usize| pre.has_system(s)
                implies (#[trigger] mid.spec_system(s)).members() == dropped(pre.spec_system(s).members(), entity) by {
                if !listed(ids@, 0, count as int, s) {
                    assert(mid.systems()[s as int] == pre.systems()[s as int]);
                    assert(!pre.belongs(entity, s));
                    if pre.spec_system(s).members().contains(entity) {
                        assert(pre.follows(s, entity));
                    }
                }
            }
        }
        let keys: Vec<usize> = self.store.entity(entity).aspect().keys();
        let key_count: usize = keys.len();
        let mut n: usize = 0;
        proof {
            lemma_listed_all(keys@);
            assert forall|c: usize| pre.store().spec_entity(entity).aspect.contains(c) <==> listed(
                keys@,
                0,
                key_count as int,
                c,
            ) by {
                assert(keys@.to_set().contains(c) <==> keys@.contains(c));
            }
        }
        while n < key_count
            invariant
                n <= key_count,
                key_count == keys@.len(),
                keys@.no_duplicates(),
                forall|c: usize|
                    pre.store().spec_entity(entity).aspect.contains(c) <==> #[trigger] listed(
                        keys@,
                        0,
                        key_count as int,
                        c,
                    ),
                pre.wf(),
                pre.store().has_entity(entity),
                self.wf(),
                self.systems() == mid.systems(),
                self.store().banks().len() == pre.store().banks().len(),
                self.store().entities().len() == pre.store().entities().len(),
                forall|e: usize|
                    e != entity && pre.store().has_entity(e) ==> #[trigger] self.store().entities()[e - 1]
                        == pre.store().entities()[e - 1],
                self.store().spec_entity(entity).id == entity,
                self.store().spec_entity(entity).systems == Set::<usize>::empty(),
                self.store().spec_entity(entity).offsets.len() == pre.store().spec_entity(entity).offsets.len(),
                forall|c: usize|
                    #![trigger self.store().spec_entity(entity).offsets[c as int]]
                    c < pre.store().spec_entity(entity).offsets.len()
                        ==> self.store().spec_entity(entity).offsets[c as int] == if listed(keys@, 0, n as int, c) {
                        UNSET
                    } else {
                        pre.store().spec_entity(entity).offsets[c as int]
                    },
                forall|c: usize|
                    #[trigger] self.store().spec_entity(entity).aspect.contains(c) <==> listed(
                        keys@,
                        n as int,
                        key_count as int,
                        c,
                    ),
                forall|c: usize|
                    pre.store().has_bank(c) ==> #[trigger] self.store().spec_bank(c) == if listed(
                        keys@,
                        0,
                        n as int,
                        c,
                    ) {
                        pre.store().freed(c, entity)
                    } else {
                        pre.store().spec_bank(c)
                    },
                forall|c: usize, e: usize|
                    pre.store().has_entity(e) && e != entity ==> #[trigger] self.store().component(c, e)
                        == pre.store().component(c, e),
            decreases key_count - n,
        {
            let ghost before = *self;
            let component_id: usize = keys[n];
            proof {
                lemma_listed_step(keys@, n as int);
                assert(listed(keys@, n as int, key_count as int, component_id));
                assert(before.store().spec_entity(entity).aspect.contains(component_id));
                assert(before.store().spec_entity(entity).wf());
                assert(before.store().spec_entity(entity).slot_of(component_id).is_some());
                assert(before.store().has_bank(component_id));
            }
            self.store.detach(component_id, entity);
            proof {
                Self::lemma_detached(&before, self, component_id, entity);
                assert forall|s: usize| !self.belongs(entity, s) by {
                    assert(self.belongs(entity, s) <==> before.belongs(entity, s));
                }
                assert forall|e: usize| e != entity && pre.store().has_entity(e)
                    implies #[trigger] self.store().entities()[e - 1] == pre.store().entities()[e - 1] by {
                    assert(before.store().entities()[e - 1] == pre.store().entities()[e - 1]);
                }
                assert forall|c: usize|
                    #![trigger self.store().spec_entity(entity).offsets[c as int]]
                    c < pre.store().spec_entity(entity).offsets.len()
                        implies self.store().spec_entity(entity).offsets[c as int] == if listed(keys@, 0, n + 1, c) {
                    UNSET
                } else {
                    pre.store().spec_entity(entity).offsets[c as int]
                } by {
                    assert(before.store().spec_entity(entity).offsets[c as int] == if listed(keys@, 0, n as int, c) {
                        UNSET
                    } else {
                        pre.store().spec_entity(entity).offsets[c as int]
                    });
                }
                assert forall|c: usize| #[trigger]
                    self.store().spec_entity(entity).aspect.contains(c)
                        <==> listed(keys@, n + 1, key_count as int, c) by {
                    assert(before.store().spec_entity(entity).aspect.contains(c) <==> listed(
                        keys@,
                        n as int,
                        key_count as int,
                        c,
                    ));
                }
                assert forall|c: usize| pre.store().has_bank(c)
                    implies #[trigger] self.store().spec_bank(c) == if listed(
                    keys@,
                    0,
                    n + 1,
                    c,
                ) {
                    pre.store().freed(c, entity)
                } else {
                    pre.store().spec_bank(c)
                } by {
                    assert(before.store().spec_bank(c) == if listed(keys@, 0, n as int, c) {
                        pre.store().freed(c, entity)
                    } else {
                        pre.store().spec_bank(c)
                    });
                    if c != component_id {
                        assert(self.store().banks()[c as int] == before.store().banks()[c as int]);
                    } else {
                        assert(before.store().spec_entity(entity).offsets[c as int]
                            == pre.store().spec_entity(entity).offsets[c as int]);
                    }
                }
                assert forall|c: usize, e: usize| pre.store().has_entity(e) && e != entity
                    implies #[trigger] self.store().component(c, e) == pre.store().component(c, e) by {
                    assert(before.store().component(c, e) == pre.store().component(c, e));
                }
            }
            n += 1;
        }
        proof {
            let after = *self;
            lemma_listed_all(keys@);
            let record = after.store().spec_entity(entity);
            let origin = pre.store().spec_entity(entity);
            assert(origin.wf());
            assert forall|c: usize| !record.aspect.contains(c) by {
                assert(record.aspect.contains(c) <==> listed(keys@, key_count as int, key_count as int, c));
            }
            assert(record.aspect =~= Set::<usize>::empty());
            assert forall|i: int| 0 <= i < record.offsets.len() implies record.offsets[i] == UNSET by {
                let c = i as usize;
                assert(record.offsets[c as int] == if listed(keys@, 0, key_count as int, c) {
                    UNSET
                } else {
                    origin.offsets[c as int]
                });
                if !listed(keys@, 0, key_count as int, c) {
                    assert(!origin.aspect.contains(c));
                    assert(origin.slot_of(c).is_none());
                }
            }
            assert(record.offsets =~= Seq::new(origin.offsets.len(), |i: int| UNSET));
            assert forall|c: usize| #[trigger] after.store().component(c, entity).is_none() by {
                if c < record.offsets.len() {
                    assert(record.offsets[c as int] == UNSET);
                }
            }
            assert forall|c: usize| pre.store().has_bank(c) implies #[trigger] after.store().spec_bank(c)
                == pre.store().freed(c, entity) by {
                if !listed(keys@, 0, key_count as int, c) {
                    assert(!origin.aspect.contains(c));
                    assert(origin.slot_of(c).is_none());
                }
            }
            assert forall|s: usize| pre.has_system(s) implies (#[trigger] after.spec_system(s)).required()
                == pre.spec_system(s).required()
                    && after.spec_system(s).members() == dropped(pre.spec_system(s).members(), entity) by {
                assert(after.spec_system(s) == mid.spec_system(s));
            }
        }
    }

    /// A world stays well formed when an entity is given a component and
    /// nothing else changes.
    proof fn lemma_attached(pre: &Self, post: &Self, component_id: usize, entity: usize, slot: usize)
        requires
            pre.wf(),
            pre.store().has_entity(entity),
            post.store().wf(),
            post.systems() == pre.systems(),
            post.store().entities().len() == pre.store().entities().len(),
            post.store().spec_entity(entity) == pre.store().spec_entity(entity).attached(component_id, slot),
            forall|e: usize|
                e != entity && pre.store().has_entity(e) ==> #[trigger] post.store().entities()[e - 1]
                    == pre.store().entities()[e - 1],
        ensures
            post.wf(),
    {
        assert forall|s: usize| post.has_system(s) implies (#[trigger] post.spec_system(s)).spec_system_id() == s
            && post.spec_system(s).members().no_duplicates() by {
            assert(pre.spec_system(s).spec_system_id() == s);
        }
        assert forall|s: usize, e: usize| post.has_system(s) && #[trigger] post.follows(s, e)
            implies post.store().has_entity(e) && post.belongs(e, s) by {
            assert(pre.follows(s, e));
            assert(pre.belongs(e, s));
            if e != entity {
                assert(post.store().entities()[e - 1] == pre.store().entities()[e - 1]);
            }
        }
        assert forall|e: usize, s: usize| post.store().has_entity(e) && #[trigger] post.belongs(e, s)
            implies post.has_system(s) && post.follows(s, e) && post.covers(e, s) by {
            if e != entity {
                assert(post.store().entities()[e - 1] == pre.store().entities()[e - 1]);
            }
            assert(pre.belongs(e, s));
            assert(pre.follows(s, e));
            assert(pre.covers(e, s));
        }
    }

    /// A world stays well formed when an entity that does not belong to a
    /// system is offered to it, and joins it if the system adopted it.
    proof fn lemma_offered(pre: &Self, post: &Self, system_id: usize, entity: usize)
        requires
            pre.wf(),
            pre.has_system(system_id),
            pre.store().has_entity(entity),
            post.systems() == pre.systems().update(system_id as int, post.spec_system(system_id)),
            post.spec_system(system_id).spec_system_id() == pre.spec_system(system_id).spec_system_id(),
            post.spec_system(system_id).required() == pre.spec_system(system_id).required(),
            pre.belongs(entity, system_id) || !pre.covers(entity, system_id) ==> post.spec_system(system_id).members()
                == pre.spec_system(system_id).members() && post.store() == pre.store(),
            !pre.belongs(entity, system_id) && pre.covers(entity, system_id) ==> {
                &&& post.spec_system(system_id).members() == pre.spec_system(system_id).members().push(entity)
                &&& post.store().wf()
                &&& post.store().banks() == pre.store().banks()
                &&& post.store().entities().len() == pre.store().entities().len()
                &&& post.store().spec_entity(entity) == pre.store().spec_entity(entity).joined(system_id)
                &&& forall|e: usize|
                    e != entity && pre.store().has_entity(e) ==> #[trigger] post.store().entities()[e - 1]
                        == pre.store().entities()[e - 1]
            },
        ensures
            post.wf(),
            post.store().banks() == pre.store().banks(),
            post.store().entities().len() == pre.store().entities().len(),
            forall|e: usize|
                e != entity && pre.store().has_entity(e) ==> #[trigger] post.store().entities()[e - 1]
                    == pre.store().entities()[e - 1],
            post.store().spec_entity(entity).id == pre.store().spec_entity(entity).id,
            post.store().spec_entity(entity).offsets == pre.store().spec_entity(entity).offsets,
            post.store().spec_entity(entity).aspect == pre.store().spec_entity(entity).aspect,
            forall|s: usize| #[trigger]
                post.belongs(entity, s)
                    <==> pre.belongs(entity, s) || (s == system_id && pre.covers(entity, system_id)),
    {
        let joins = !pre.belongs(entity, system_id) && pre.covers(entity, system_id);
        let list = pre.spec_system(system_id).members();
        lemma_pushed(list, entity);
        if joins {
            if list.contains(entity) {
                assert(pre.follows(system_id, entity));
            }
        }
        assert forall|s: usize| post.has_system(s) implies (#[trigger] post.spec_system(s)).spec_system_id() == s
            && post.spec_system(s).members().no_duplicates() by {
            assert(pre.spec_system(s).spec_system_id() == s);
        }
        assert forall|s: usize, e: usize| post.has_system(s) && #[trigger] post.follows(s, e)
            implies post.store().has_entity(e) && post.belongs(e, s) by {
            if s == system_id && joins {
                if e != entity {
                    assert(list.push(entity).contains(e));
                    assert(pre.follows(s, e));
                    assert(post.store().entities()[e - 1] == pre.store().entities()[e - 1]);
                }
            } else {
                assert(pre.follows(s, e));
                assert(pre.belongs(e, s));
                if joins && e != entity {
                    assert(post.store().entities()[e - 1] == pre.store().entities()[e - 1]);
                }
            }
        }
        assert forall|e: usize, s: usize| post.store().has_entity(e) && #[trigger] post.belongs(e, s)
            implies post.has_system(s) && post.follows(s, e) && post.covers(e, s) by {
            if joins && e != entity {
                assert(post.store().entities()[e - 1] == pre.store().entities()[e - 1]);
            }
            if joins && e == entity && s == system_id {
                assert(list.push(entity).contains(entity));
            } else {
                assert(pre.belongs(e, s));
                assert(pre.follows(s, e));
                assert(pre.covers(e, s));
                if s == system_id && joins {
                    assert(list.push(entity).contains(e));
                }
            }
        }
    }

    /// Entities other than `entity` stay settled when their records and the
    /// aspects that the systems require stay as they are.
    proof fn lemma_settled_kept(pre: &Self, post: &Self, entity: usize)
        requires
            post.systems().len() == pre.systems().len(),
            post.store().entities().len() == pre.store().entities().len(),
            forall|e: usize|
                e != entity && pre.store().has_entity(e) ==> #[trigger] post.store().entities()[e - 1]
                    == pre.store().entities()[e - 1],
            forall|s: usize|
                pre.has_system(s) ==> (#[trigger] post.spec_system(s)).required() == pre.spec_system(s).required(),
        ensures
            forall|e: usize|
                e != entity && pre.store().has_entity(e) && pre.settled(e) ==> #[trigger] post.settled(e),
    {
        assert forall|e: usize| e != entity && pre.store().has_entity(e) && pre.settled(e)
            implies #[trigger] post.settled(e) by {
            assert(post.store().entities()[e - 1] == pre.store().entities()[e - 1]);
            assert forall|s: usize| post.has_system(s)
                implies (#[trigger] post.belongs(e, s) <==> post.covers(e, s)) by {
                assert(post.spec_system(s).required() == pre.spec_system(s).required());
                assert(pre.belongs(e, s) <==> pre.covers(e, s));
            }
        }
    }

    /// A system follows an entity only if the entity has every component
    /// that the system requires. For a settled entity the converse holds
    /// too: a system follows it exactly when it has all of them.
    pub proof fn lemma_follows_iff_mapped(&self, system_id: usize, entity: usize)
        requires
            self.wf(),
            self.has_system(system_id),
            self.store().has_entity(entity),
        ensures
            self.follows(system_id, entity) ==> forall|c: usize|
                self.spec_system(system_id).required().contains(c)
                    ==> (#[trigger] self.store().component(c, entity)).is_some(),
            self.settled(entity) ==> (self.follows(system_id, entity) <==> forall|c: usize|
                self.spec_system(system_id).required().contains(c)
                    ==> (#[trigger] self.store().component(c, entity)).is_some()),
    {
        let record = self.store().spec_entity(entity);
        let required = self.spec_system(system_id).required();
        assert(record.wf());
        if self.follows(system_id, entity) {
            assert(self.belongs(entity, system_id));
            assert(self.covers(entity, system_id));
            assert forall|c: usize| required.contains(c)
                implies (#[trigger] self.store().component(c, entity)).is_some() by {
                assert(record.aspect.contains(c));
                assert(record.slot_of(c).is_some());
            }
        }
        if self.settled(entity) && (forall|c: usize|
            required.contains(c) ==> (#[trigger] self.store().component(c, entity)).is_some()) {
            assert forall|c: usize| required.contains(c) implies record.aspect.contains(c) by {
                assert(self.store().component(c, entity).is_some());
                assert(record.slot_of(c).is_some());
            }
            assert(self.covers(entity, system_id));
            assert(self.belongs(entity, system_id));
            assert(self.follows(system_id, entity));
        }
    }

    /// An entity that belongs to a system stands in the list of the system
    /// at exactly one index, so that an update, which takes one step for
    /// each index of the list, processes it exactly once.
    pub proof fn lemma_follows_once(&self, system_id: usize, entity: usize)
        requires
            self.wf(),
            self.store().has_entity(entity),
            self.belongs(entity, system_id),
        ensures
            self.has_system(system_id),
            exists|k: int|
                0 <= k < self.spec_system(system_id).members().len()
                    && #[trigger] self.spec_system(system_id).members()[k] == entity && forall|j: int|
                    0 <= j < self.spec_system(system_id).members().len() && j != k
                        ==> self.spec_system(system_id).members()[j] != entity,
    {
        let list = self.spec_system(system_id).members();
        assert(self.follows(system_id, entity));
        assert(self.spec_system(system_id).spec_system_id() == system_id);
        let k = choose|k: int| 0 <= k < list.len() && list[k] == entity;
        assert(list[k] == entity);
        assert forall|j: int| 0 <= j < list.len() && j != k implies list[j] != entity by {}
    }

    /// A world stays well formed when the store changes in component
    /// values only.
    pub proof fn lemma_reshaped(pre: &Self, post: &Self)
        requires
            pre.wf(),
            post.reshaped(pre),
        ensures
            post.wf(),
    {
        assert forall|s: usize| post.has_system(s) implies (#[trigger] post.spec_system(s)).spec_system_id() == s
            && post.spec_system(s).members().no_duplicates() by {
            assert(pre.spec_system(s).spec_system_id() == s);
        }
        assert forall|s: usize, e: usize| post.has_system(s) && #[trigger] post.follows(s, e)
            implies post.store().has_entity(e) && post.belongs(e, s) by {
            assert(pre.follows(s, e));
            assert(post.store().spec_entity(e) == pre.store().spec_entity(e));
        }
        assert forall|e: usize, s: usize| post.store().has_entity(e) && #[trigger] post.belongs(e, s)
            implies post.has_system(s) && post.follows(s, e) && post.covers(e, s) by {
            assert(post.store().spec_entity(e) == pre.store().spec_entity(e));
            assert(pre.belongs(e, s));
            assert(pre.follows(s, e));
            assert(pre.covers(e, s));
        }
    }

    /// A world stays well formed when one system is replaced by one with the
    /// same id, members and required aspect, and the store keeps its shape.
    proof fn lemma_updated(pre: &Self, post: &Self, system_id: usize)
        requires
            pre.wf(),
            pre.has_system(system_id),
            post.store().wf(),
            post.store().same_shape(&pre.store()),
            post.systems() == pre.systems().update(system_id as int, post.spec_system(system_id)),
            post.spec_system(system_id).members() == pre.spec_system(system_id).members(),
            post.spec_system(system_id).spec_system_id() == pre.spec_system(system_id).spec_system_id(),
            post.spec_system(system_id).required() == pre.spec_system(system_id).required(),
        ensures
            post.wf(),
    {
        assert forall|s: usize| post.has_system(s) implies (#[trigger] post.spec_system(s)).spec_system_id() == s
            && post.spec_system(s).members().no_duplicates() by {
            assert(pre.spec_system(s).spec_system_id() == s);
        }
        assert forall|s: usize, e: usize| post.has_system(s) && #[trigger] post.follows(s, e)
            implies post.store().has_entity(e) && post.belongs(e, s) by {
            assert(pre.follows(s, e));
            assert(post.store().spec_entity(e) == pre.store().spec_entity(e));
        }
        assert forall|e: usize, s: usize| post.store().has_entity(e) && #[trigger] post.belongs(e, s)
            implies post.has_system(s) && post.follows(s, e) && post.covers(e, s) by {
            assert(post.store().spec_entity(e) == pre.store().spec_entity(e));
            assert(pre.belongs(e, s));
            assert(pre.follows(s, e));
            assert(pre.covers(e, s));
        }
    }
}

} // verus!
