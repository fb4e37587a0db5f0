//! Systems: behaviours that follow the entities whose aspect covers theirs.
use crate::aspect::Aspect;
use crate::entity::Entity;
use crate::store::Store;
use vstd::prelude::*;

verus! {

/// The index at which `id` stands first in `list`.
pub open spec fn position(list: Seq<usize>, id: usize) -> int {
    choose|i: int| 0 <= i < list.len() && list[i] == id && forall|j: int| 0 <= j < i ==> list[j] != id
}

/// `list` without the first `id` in it: the last item takes its place. A list
/// that does not hold `id` stays as it is.
pub open spec fn dropped(list: Seq<usize>, id: usize) -> Seq<usize> {
    if list.contains(id) {
        list.update(position(list, id), list.last()).drop_last()
    } else {
        list
    }
}

/// If `id` stands at `at` in `list` and nowhere before, `at` is its position.
pub proof fn lemma_position(list: Seq<usize>, id: usize, at: int)
    requires
        0 <= at < list.len(),
        list[at] == id,
        forall|j: int| 0 <= j < at ==> list[j] != id,
    ensures
        list.contains(id),
        position(list, id) == at,
{
    let p = position(list, id);
    assert(0 <= p < list.len() && list[p] == id && forall|j: int| 0 <= j < p ==> list[j] != id);
    if p < at {
        assert(list[p] != id);
    }
    if at < p {
        assert(list[at] != id);
    }
}

/// Appending an id that a list does not hold keeps the list free of
/// repetitions; the new list holds the id and what the list held.
pub proof fn lemma_pushed(list: Seq<usize>, id: usize)
    ensures
        list.no_duplicates() && !list.contains(id) ==> list.push(id).no_duplicates(),
        forall|x: usize| #[trigger] list.push(id).contains(x) <==> list.contains(x) || x == id,
{
    let after = list.push(id);
    assert forall|x: usize| #[trigger] after.contains(x) <==> list.contains(x) || x == id by {
        if after.contains(x) {
            let i = choose|i: int| 0 <= i < after.len() && after[i] == x;
            if i < list.len() {
                assert(list[i] == x);
            }
        }
        if list.contains(x) {
            let i = choose|i: int| 0 <= i < list.len() && list[i] == x;
            assert(after[i] == x);
        }
        if x == id {
            assert(after[list.len() as int] == x);
        }
    }
    if list.no_duplicates() && !list.contains(id) {
        assert forall|i: int, j: int| 0 <= i < after.len() && 0 <= j < after.len() && i != j implies after[i]
            != after[j] by {
            if i < list.len() {
                assert(list[i] == after[i]);
            }
            if j < list.len() {
                assert(list[j] == after[j]);
            }
        }
    }
}

/// Dropping an id from a list in which nothing stands twice leaves such a
/// list, which holds what the list held except the id.
pub proof fn lemma_dropped(list: Seq<usize>, id: usize)
    requires
        list.no_duplicates(),
    ensures
        dropped(list, id).no_duplicates(),
        forall|x: usize| #[trigger] dropped(list, id).contains(x) <==> list.contains(x) && x != id,
        list.contains(id) ==> dropped(list, id).len() == list.len() - 1,
{
    let after = dropped(list, id);
    if list.contains(id) {
        let first = choose|i: int| 0 <= i < list.len() && list[i] == id;
        assert(exists|i: int| 0 <= i < list.len() && list[i] == id && forall|j: int| 0 <= j < i ==> list[j] != id) by {
            assert(forall|j: int| 0 <= j < first ==> list[j] != id);
        }
        let p = position(list, id);
        let last = list.len() - 1;
        assert forall|i: int, j: int| 0 <= i < after.len() && 0 <= j < after.len() && i != j implies after[i]
            != after[j] by {
            let oi = if i == p { last } else { i };
            let oj = if j == p { last } else { j };
            assert(after[i] == list[oi]);
            assert(after[j] == list[oj]);
        }
        assert forall|x: usize| #[trigger] after.contains(x) <==> list.contains(x) && x != id by {
            if after.contains(x) {
                let i = choose|i: int| 0 <= i < after.len() && after[i] == x;
                let oi = if i == p { last } else { i };
                assert(list[oi] == x);
                if x == id {
                    assert(list[p] == id);
                }
            }
            if list.contains(x) && x != id {
                let i = choose|i: int| 0 <= i < list.len() && list[i] == x;
                if i == last {
                    assert(after[p] == x);
                } else {
                    assert(after[i] == x);
                }
            }
        }
    } else {
        assert forall|x: usize| #[trigger] after.contains(x) <==> list.contains(x) && x != id by {}
    }
}

/// A behaviour that a world runs once per tick over the entities it follows.
///
/// A system declares its id and the aspect it requires, keeps the list of
/// the entities it follows, and is told by the world when an entity's aspect
/// has changed. `U` is the data handed to every update, `C` the type of the
/// component values.
///
/// The `spec` functions describe an implementation to the verifier. A
/// verified implementation defines them. By default each is some function
/// of its arguments of which nothing is known, and an implementation that
/// leaves them so is taken on trust to behave as the contracts of the
/// methods say.
pub trait System<U, C>: Sized {
    /// The id that the system declares.
    open spec fn spec_system_id(&self) -> usize {
        arbitrary::<spec_fn(Self) -> usize>()(*self)
    }

    /// The ids of the entities that the system follows, in the order in which
    /// an update processes them.
    open spec fn members(&self) -> Seq<usize> {
        arbitrary::<spec_fn(Self) -> Seq<usize>>()(*self)
    }

    /// The aspect that an entity must cover for the system to follow it.
    open spec fn required(&self) -> Set<usize> {
        arbitrary::<spec_fn(Self) -> Set<usize>>()(*self)
    }

    /// Whether one update with `update_item` can take the system from `pre`
    /// to `post` and the store from `before` to `after`.
    open spec fn updated(pre: Self, update_item: U, before: Store<C>, post: Self, after: Store<C>) -> bool {
        arbitrary::<spec_fn(Self, U, Store<C>, Self, Store<C>) -> bool>()(pre, update_item, before, post, after)
    }

    /// The id that the system declares.
    fn system_id(&self) -> (id: usize)
        ensures
            id == self.spec_system_id(),
    ;

    /// Offers `entity` to the system, which adopts it if the entity's aspect
    /// covers the required one. Returns whether the entity was adopted.
    fn possible_add(&mut self, entity: &Entity) -> (added: bool)
        ensures
            added == old(self).required().subset_of(entity@.aspect),
            final(self).members() == if added {
                old(self).members().push(entity@.id)
            } else {
                old(self).members()
            },
            final(self).spec_system_id() == old(self).spec_system_id(),
            final(self).required() == old(self).required(),
    ;

    /// Drops `entity` if the system follows it and its aspect no longer
    /// covers the required one. Returns whether the entity was dropped.
    fn possible_remove(&mut self, entity: &Entity) -> (removed: bool)
        ensures
            removed == (!old(self).required().subset_of(entity@.aspect) && old(self).members().contains(entity@.id)),
            final(self).members() == if removed {
                dropped(old(self).members(), entity@.id)
            } else {
                old(self).members()
            },
            final(self).spec_system_id() == old(self).spec_system_id(),
            final(self).required() == old(self).required(),
    ;

    /// Drops `entity` whatever its aspect. Nothing changes if the system does
    /// not follow it.
    fn must_remove(&mut self, entity: &Entity)
        ensures
            final(self).members() == dropped(old(self).members(), entity@.id),
            final(self).spec_system_id() == old(self).spec_system_id(),
            final(self).required() == old(self).required(),
    ;

    /// Processes every entity that the system follows, once. The update may
    /// read the records of `world` and read and write component values.
    fn update(&mut self, update_item: &U, world: &mut Store<C>)
        requires
            old(world).wf(),
            forall|k: int| 0 <= k < old(self).members().len()
                ==> old(world).has_entity(#[trigger] old(self).members()[k]),
        ensures
            final(world).wf(),
            final(world).same_shape(old(world)),
            final(self).members() == old(self).members(),
            final(self).spec_system_id() == old(self).spec_system_id(),
            final(self).required() == old(self).required(),
            Self::updated(*old(self), *update_item, *old(world), *final(self), *final(world)),
    ;
}

/// What an [`AspectSystem`] does with one entity: the part of a system that
/// its author writes.
///
/// The `spec` functions describe an implementation to the verifier, as those
/// of [`System`] do.
pub trait AspectSystemState<U, C>: Sized {
    /// The id that the system declares.
    open spec fn spec_system_id(&self) -> usize {
        arbitrary::<spec_fn(Self) -> usize>()(*self)
    }

    /// Whether processing the entity `entity` with `update_item` can take the
    /// state from `pre` to `post` and the store from `before` to `after`.
    open spec fn stepped(
        pre: Self,
        entity: usize,
        update_item: U,
        before: Store<C>,
        post: Self,
        after: Store<C>,
    ) -> bool {
        arbitrary::<spec_fn(Self, usize, U, Store<C>, Self, Store<C>) -> bool>()(
            pre,
            entity,
            update_item,
            before,
            post,
            after,
        )
    }

    /// The id that the system declares.
    fn system_id(&self) -> (id: usize)
        ensures
            id == self.spec_system_id(),
    ;

    /// Processes the entity `entity`. The update may read the records of
    /// `world` and read and write component values.
    fn update(&mut self, entity: usize, update_item: &U, world: &mut Store<C>)
        requires
            old(world).wf(),
            old(world).has_entity(entity),
        ensures
            final(world).wf(),
            final(world).same_shape(old(world)),
            final(self).spec_system_id() == old(self).spec_system_id(),
            Self::stepped(*old(self), entity, *update_item, *old(world), *final(self), *final(world)),
    ;
}

/// Whether `states` and `stores` record one pass over `members`: processing
/// `members[k]` takes the state from `states[k]` to `states[k + 1]` and the
/// store from `stores[k]` to `stores[k + 1]`.
pub open spec fn passed<U, C, St: AspectSystemState<U, C>>(
    members: Seq<usize>,
    update_item: U,
    states: Seq<St>,
    stores: Seq<Store<C>>,
) -> bool {
    &&& states.len() == members.len() + 1
    &&& stores.len() == members.len() + 1
    &&& forall|k: int|
        0 <= k < members.len() ==> St::stepped(
            #[trigger] states[k],
            members[k],
            update_item,
            stores[k],
            states[k + 1],
            stores[k + 1],
        )
}

/// The standard system: it follows the entities whose aspect covers its own
/// and hands each of them to its state once per update.
pub struct AspectSystem<St> {
    aspect: Aspect,
    entities: Vec<usize>,
    state: St,
}

impl<St> AspectSystem<St> {
    /// The aspect that the system requires.
    pub closed spec fn spec_aspect(&self) -> Set<usize> {
        self.aspect@
    }

    /// The ids of the entities that the system follows, in processing order.
    pub closed spec fn spec_entities(&self) -> Seq<usize> {
        self.entities@
    }

    /// The state that processes the entities.
    pub closed spec fn spec_state(&self) -> St {
        self.state
    }

    /// A system that requires `aspect`, processes entities with `state` and
    /// follows no entity yet.
    pub fn new(aspect: Aspect, state: St) -> (system: AspectSystem<St>)
        ensures
            system.spec_aspect() == aspect@,
            system.spec_entities() == Seq::<usize>::empty(),
            system.spec_state() == state,
    {
        AspectSystem { aspect, entities: Vec::new(), state }
    }

    /// The aspect that the system requires.
    pub fn aspect(&self) -> (aspect: &Aspect)
        ensures
            aspect@ == self.spec_aspect(),
    {
        &self.aspect
    }

    /// The ids of the entities that the system follows, in processing order.
    pub fn entities(&self) -> (entities: &Vec<usize>)
        ensures
            entities@ == self.spec_entities(),
    {
        &self.entities
    }

    /// The state that processes the entities.
    pub fn state(&self) -> (state: &St)
        ensures
            *state == self.spec_state(),
    {
        &self.state
    }

    /// Drops the entity `id` from the list: the last entity takes the place
    /// of its first occurrence. Returns whether the list held it.
    fn try_remove(&mut self, id: usize) -> (removed: bool)
        ensures
            removed == old(self).spec_entities().contains(id),
            final(self).spec_entities() == dropped(old(self).spec_entities(), id),
            final(self).spec_aspect() == old(self).spec_aspect(),
            final(self).spec_state() == old(self).spec_state(),
    {
        let count: usize = self.entities.len();
        let mut loc: usize = 0;
        while loc < count && self.entities[loc] != id
            invariant
                count == self.entities@.len(),
                loc <= count,
                forall|j: int| 0 <= j < loc ==> self.entities@[j] != id,
            decreases count - loc,
        {
            loc += 1;
        }
        if loc < count {
            proof {
                lemma_position(self.entities@, id, loc as int);
            }
            self.entities.swap_remove(loc);
            true
        } else {
            false
        }
    }
}

impl<U, C, St: AspectSystemState<U, C>> System<U, C> for AspectSystem<St> {
    open spec fn spec_system_id(&self) -> usize {
        self.spec_state().spec_system_id()
    }

    open spec fn members(&self) -> Seq<usize> {
        self.spec_entities()
    }

    open spec fn required(&self) -> Set<usize> {
        self.spec_aspect()
    }

    /// The state has processed the entities that the system follows one by
    /// one, in the order of the list.
    open spec fn updated(pre: Self, update_item: U, before: Store<C>, post: Self, after: Store<C>) -> bool {
        &&& post.spec_aspect() == pre.spec_aspect()
        &&& post.spec_entities() == pre.spec_entities()
        &&& exists|states: Seq<St>, stores: Seq<Store<C>>|
            #![trigger passed(pre.spec_entities(), update_item, states, stores)]
            {
                &&& passed(pre.spec_entities(), update_item, states, stores)
                &&& states[0] == pre.spec_state()
                &&& states.last() == post.spec_state()
                &&& stores[0] == before
                &&& stores.last() == after
            }
    }

    fn system_id(&self) -> (id: usize) {
        self.state.system_id()
    }

    fn possible_add(&mut self, entity: &Entity) -> (added: bool) {
        if self.aspect.is_subset(entity.aspect()) {
            self.entities.push(entity.id());
            true
        } else {
            false
        }
    }

    fn possible_remove(&mut self, entity: &Entity) -> (removed: bool) {
        if self.aspect.is_subset(entity.aspect()) {
            return false;
        }
        self.try_remove(entity.id())
    }

    fn must_remove(&mut self, entity: &Entity) {
        self.try_remove(entity.id());
    }

    fn update(&mut self, update_item: &U, world: &mut Store<C>) {
        let count: usize = self.entities.len();
        let ghost mut states: Seq<St> = seq![self.state];
        let ghost mut stores: Seq<Store<C>> = seq![*world];
        let mut i: usize = 0;
        assert forall|k: int| 0 <= k < self.entities@.len() implies old(world).has_entity(
            #[trigger] self.entities@[k],
        ) by {
            assert(old(self).members()[k] == self.entities@[k]);
        }
        while i < count
            invariant
                i <= count,
                count == self.entities@.len(),
                self.entities@ == old(self).entities@,
                self.aspect == old(self).aspect,
                self.state.spec_system_id() == old(self).state.spec_system_id(),
                forall|k: int| 0 <= k < self.entities@.len() ==> old(world).has_entity(#[trigger] self.entities@[k]),
                world.wf(),
                world.same_shape(old(world)),
                states.len() == i + 1,
                stores.len() == i + 1,
                states[0] == old(self).state,
                stores[0] == *old(world),
                states.last() == self.state,
                stores.last() == *world,
                forall|k: int|
                    0 <= k < i ==> St::stepped(
                        #[trigger] states[k],
                        self.entities@[k],
                        *update_item,
                        stores[k],
                        states[k + 1],
                        stores[k + 1],
                    ),
            decreases count - i,
        {
            let entity: usize = self.entities[i];
            let ghost before = *world;
            self.state.update(entity, update_item, world);
            proof {
                world.lemma_same_shape_trans(&before, old(world));
                states = states.push(self.state);
                stores = stores.push(*world);
            }
            i += 1;
        }
        proof {
            assert(passed(old(self).spec_entities(), *update_item, states, stores));
        }
    }
}

} // verus!
