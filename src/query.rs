use crate::entity::Entity;
use crate::world::World;
use std::any::TypeId;
use vstd::prelude::*;

verus! {

/// The entities of `s`, in order, that have a component of type `t` in `w`.
pub open spec fn holding<T>(s: Seq<Entity>, w: World<T>, t: TypeId) -> Seq<Entity>
    decreases s.len(),
{
    if s.len() == 0 {
        Seq::empty()
    } else {
        let rest = holding(s.drop_last(), w, t);
        if w.components(s.last()).contains_key(t) {
            rest.push(s.last())
        } else {
            rest
        }
    }
}

/// What `holding` keeps: entities of `s` that have the component, and all
/// of them.
pub proof fn lemma_holding<T>(s: Seq<Entity>, w: World<T>, t: TypeId)
    ensures
        forall|e: Entity|
            #[trigger] holding(s, w, t).contains(e) <==> s.contains(e) && w.components(e).contains_key(t),
        s.no_duplicates() ==> holding(s, w, t).no_duplicates(),
    decreases s.len(),
{
    if s.len() > 0 {
        let rest = holding(s.drop_last(), w, t);
        lemma_holding(s.drop_last(), w, t);
        assert forall|e: Entity|
            #[trigger] holding(s, w, t).contains(e) <==> s.contains(e) && w.components(e).contains_key(t) by {
            if s.contains(e) && e != s.last() {
                let i = choose|i: int| 0 <= i < s.len() && s[i] == e;
                assert(s.drop_last()[i] == e);
            }
            if s.drop_last().contains(e) {
                let i = choose|i: int| 0 <= i < s.len() - 1 && s.drop_last()[i] == e;
                assert(s[i] == e);
            }
            if w.components(s.last()).contains_key(t) {
                assert(holding(s, w, t) == rest.push(s.last()));
                if rest.contains(e) {
                    let i = choose|i: int| 0 <= i < rest.len() && rest[i] == e;
                    assert(rest.push(s.last())[i] == e);
                }
                if holding(s, w, t).contains(e) && e != s.last() {
                    let i = choose|i: int| 0 <= i < rest.len() + 1 && rest.push(s.last())[i] == e;
                    assert(rest[i] == e);
                }
                assert(rest.push(s.last())[rest.len() as int] == s.last());
            }
        }
        if s.no_duplicates() {
            assert(s.drop_last().no_duplicates());
            if w.components(s.last()).contains_key(t) {
                assert(!rest.contains(s.last())) by {
                    if rest.contains(s.last()) {
                        let i = choose|i: int| 0 <= i < s.len() - 1 && s.drop_last()[i] == s.last();
                        assert(s[i] == s[s.len() - 1]);
                    }
                }
            }
        }
    } else {
        assert forall|e: Entity| !#[trigger] holding(s, w, t).contains(e) by {}
    }
}

/// A query reads only what it listed when it was made: an entity that it
/// did not list is never read, however the world changed since, and a
/// listed entity that no longer has the component is skipped.
pub proof fn lemma_snapshot_isolation<T>(q: Query, w: World<T>, e: Entity)
    ensures
        holding(q.snapshot(), w, q.spec_type_id()).contains(e) ==> q.snapshot().contains(e),
        !w.components(e).contains_key(q.spec_type_id()) ==> !holding(
            q.snapshot(),
            w,
            q.spec_type_id(),
        ).contains(e),
{
    lemma_holding(q.snapshot(), w, q.spec_type_id());
}

/// A point-in-time list of the entities that had a component of one type
/// when the query was made. Later changes to the world do not change the
/// list; reading through it skips the listed entities that no longer have
/// the component.
///
/// Writing goes through `get_mut`, one entity at a time: handing out a
/// writable reference to every listed component at once would need several
/// live `&mut` borrows into the one world, which Verus cannot relate to the
/// world's state afterwards.
pub struct Query {
    type_id: TypeId,
    entities: Vec<Entity>,
}

impl Query {
    /// The type that the query asks for.
    pub closed spec fn spec_type_id(&self) -> TypeId {
        self.type_id
    }

    /// The entities listed when the query was made.
    pub closed spec fn snapshot(&self) -> Seq<Entity> {
        self.entities@
    }

    /// Lists the entities of `world` that have a component of type `type_id`.
    pub fn new<T>(world: &World<T>, type_id: TypeId) -> (r: Query)
        requires
            world.wf(),
        ensures
            r.spec_type_id() == type_id,
            r.snapshot().no_duplicates(),
            forall|e: Entity| #[trigger] r.snapshot().contains(e) <==> world.components(e).contains_key(type_id),
    {
        let storage = world.storage();
        let all = storage.entity_iter();
        let mut entities: Vec<Entity> = Vec::new();
        let mut k: usize = 0;
        while k < all.len()
            invariant
                storage.wf(),
                storage@ == world.storage_view(),
                k <= all@.len(),
                entities@ == holding(all@.take(k as int), *world, type_id),
            decreases all@.len() - k,
        {
            let entity = all[k];
            proof {
                assert(all@.take(k + 1).drop_last() =~= all@.take(k as int));
                assert(all@.take(k + 1).last() == entity);
            }
            if storage.has_component(entity, type_id) {
                entities.push(entity);
            }
            k += 1;
        }
        proof {
            assert(all@.take(k as int) =~= all@);
            lemma_holding(all@, *world, type_id);
            assert forall|e: Entity| #[trigger] entities@.contains(e) <==> world.components(e).contains_key(type_id) by {
                if world.components(e).contains_key(type_id) {
                    assert(world.storage_view().contains_key(e));
                }
            }
        }
        Query { type_id, entities }
    }

    /// The listed entities.
    pub fn entity_iter(&self) -> (r: Vec<Entity>)
        ensures
            r@ == self.snapshot(),
    {
        let mut r: Vec<Entity> = Vec::new();
        let mut k: usize = 0;
        while k < self.entities.len()
            invariant
                k <= self.entities@.len(),
                r@ == self.entities@.take(k as int),
            decreases self.entities@.len() - k,
        {
            r.push(self.entities[k]);
            proof {
                assert(self.entities@.take(k + 1) =~= self.entities@.take(k as int).push(self.entities@[k as int]));
            }
            k += 1;
        }
        proof {
            assert(self.entities@.take(k as int) =~= self.entities@);
        }
        r
    }

    /// The components of the listed entities that still have one of the
    /// query's type in `world`, in list order.
    pub fn iter<'a, T>(&self, world: &'a World<T>) -> (r: Vec<&'a T>)
        requires
            world.wf(),
        ensures
            r@.len() == holding(self.snapshot(), *world, self.spec_type_id()).len(),
            forall|k: int|
                0 <= k < r@.len() ==> *r@[k] == world.components(
                    holding(self.snapshot(), *world, self.spec_type_id())[k],
                )[self.spec_type_id()].spec_data(),
    {
        let ghost held = Seq::<Entity>::empty();
        let mut r: Vec<&'a T> = Vec::new();
        let mut k: usize = 0;
        while k < self.entities.len()
            invariant
                world.wf(),
                k <= self.entities@.len(),
                held == holding(self.entities@.take(k as int), *world, self.type_id),
                r@.len() == held.len(),
                forall|j: int|
                    0 <= j < r@.len() ==> *r@[j] == world.components(held[j])[self.type_id].spec_data(),
            decreases self.entities@.len() - k,
        {
            let entity = self.entities[k];
            proof {
                assert(self.entities@.take(k + 1).drop_last() =~= self.entities@.take(k as int));
                assert(self.entities@.take(k + 1).last() == entity);
            }
            match world.get_component(entity, self.type_id) {
                Some(component) => {
                    r.push(component);
                    proof {
                        held = held.push(entity);
                    }
                },
                None => {},
            }
            k += 1;
        }
        proof {
            assert(self.entities@.take(k as int) =~= self.entities@);
        }
        r
    }

    /// The component of the query's type of `entity` in `world`, if the
    /// entity is listed and still has one.
    pub fn get<'a, T>(&self, world: &'a World<T>, entity: Entity) -> (r: Option<&'a T>)
        requires
            world.wf(),
        ensures
            self.snapshot().contains(entity) && world.components(entity).contains_key(self.spec_type_id())
                ==> r == Some(&world.components(entity)[self.spec_type_id()].spec_data()),
            !(self.snapshot().contains(entity) && world.components(entity).contains_key(self.spec_type_id()))
                ==> r is None,
    {
        if self.lists(entity) {
            world.get_component(entity, self.type_id)
        } else {
            None
        }
    }

    /// The component of the query's type of `entity` in `world`, for
    /// writing, if the entity is listed and still has one.
    pub fn get_mut<'a, T>(&self, world: &'a mut World<T>, entity: Entity) -> (r: Option<&'a mut T>)
        requires
            old(world).wf(),
        ensures
            final(world).wf(),
            crate::world::same_entities(*old(world), *final(world)),
            self.snapshot().contains(entity) && old(world).components(entity).contains_key(self.spec_type_id())
                ==> r is Some && *r->0 == old(world).components(entity)[self.spec_type_id()].spec_data()
                && final(world).storage_view() == old(world).storage_view().insert(
                entity,
                old(world).components(entity).insert(
                    self.spec_type_id(),
                    old(world).components(entity)[self.spec_type_id()].with_data(*final(r->0)),
                ),
            ),
            self.snapshot().contains(entity) && old(world).components(entity).contains_key(self.spec_type_id())
                ==> final(world).components(entity).contains_key(self.spec_type_id())
                && final(world).components(entity)[self.spec_type_id()].spec_data() == *final(r->0),
            !(self.snapshot().contains(entity) && old(world).components(entity).contains_key(self.spec_type_id()))
                ==> r is None && *final(world) == *old(world),
    {
        if self.lists(entity) {
            world.get_component_mut(entity, self.type_id)
        } else {
            None
        }
    }

    /// Whether `entity` is listed.
    fn lists(&self, entity: Entity) -> (r: bool)
        ensures
            r == self.snapshot().contains(entity),
    {
        let mut k: usize = 0;
        while k < self.entities.len()
            invariant
                k <= self.entities@.len(),
                forall|j: int| 0 <= j < k ==> self.entities@[j] != entity,
            decreases self.entities@.len() - k,
        {
            if self.entities[k] == entity {
                return true;
            }
            k += 1;
        }
        false
    }
}

} // verus!
