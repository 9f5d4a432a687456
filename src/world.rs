use crate::data::Data;
use crate::entity::Entity;
use crate::query::Query;
use crate::storage::Storage;
use std::any::TypeId;
use vstd::prelude::*;

verus! {

broadcast use crate::entity::Entity::lemma_from_parts;

/// The entity allocator in front of a [`Storage`]: it issues entities,
/// recycles the slot index of a destroyed entity at the next generation, and
/// lets component operations through for live entities only.
pub struct World<T> {
    next_entity: u32,
    free_entities: Vec<Entity>,
    alive: Vec<Option<u32>>,
    storage: Storage<T>,
    issued: Ghost<Set<Entity>>,
}

/// `after` is `before` with `entity` created: the last freed entity comes
/// back at the next generation, else the next fresh slot index is taken at
/// generation 0; nothing is created when neither is left.
pub open spec fn creates<T>(before: World<T>, after: World<T>, r: Option<Entity>) -> bool {
    &&& after.wf()
    &&& after.storage_view() == before.storage_view()
    &&& if before.free_list().len() > 0 {
        let f = before.free_list().last();
        &&& r == Some(Entity::from_parts(f.spec_id(), (f.spec_generation() + 1) as u32))
        &&& after.free_list() == before.free_list().drop_last()
        &&& after.next_index() == before.next_index()
    } else if before.next_index() < u32::MAX {
        &&& r == Some(Entity::from_parts(before.next_index() as u32, 0))
        &&& after.free_list() == before.free_list()
        &&& after.next_index() == before.next_index() + 1
    } else {
        &&& r is None
        &&& after.free_list() == before.free_list()
        &&& after.next_index() == before.next_index()
    }
    &&& r is Some ==> {
        &&& !before.issued().contains(r->0)
        &&& !before.live().contains(r->0)
        &&& after.issued() == before.issued().insert(r->0)
        &&& after.live() == before.live().insert(r->0)
    }
    &&& r is None ==> after.issued() == before.issued() && after.live() == before.live()
}

/// `after` is `before` with `entity` destroyed: its components are gone, it
/// is no longer live, and a live entity whose generation can still grow goes
/// on the free list.
pub open spec fn destroys<T>(before: World<T>, after: World<T>, entity: Entity) -> bool {
    &&& after.wf()
    &&& after.storage_view() == before.storage_view().remove(entity)
    &&& after.live() == before.live().remove(entity)
    &&& after.issued() == before.issued()
    &&& after.next_index() == before.next_index()
    &&& if before.live().contains(entity) && entity.spec_generation() < u32::MAX {
        after.free_list() == before.free_list().push(entity)
    } else {
        after.free_list() == before.free_list()
    }
}

/// `after` is `before` with the record `data` given to `entity`: a live
/// entity gets it, replacing its record of the same type; for an entity
/// that is not live nothing changes.
pub open spec fn inserts<T>(before: World<T>, after: World<T>, entity: Entity, data: Data<T>) -> bool {
    &&& after.wf()
    &&& same_entities(before, after)
    &&& if before.live().contains(entity) {
        after.storage_view() == before.storage_view().insert(
            entity,
            before.components(entity).insert(data.spec_type_id(), data),
        )
    } else {
        after.storage_view() == before.storage_view()
    }
}

/// `after` is `before` with the record of type `type_id` taken from
/// `entity` and returned as `r`; an entity left with no record is no longer
/// tracked, and nothing changes if there was no such record.
pub open spec fn removes<T>(
    before: World<T>,
    after: World<T>,
    entity: Entity,
    type_id: TypeId,
    r: Option<Data<T>>,
) -> bool {
    let left = before.components(entity).remove(type_id);
    &&& after.wf()
    &&& same_entities(before, after)
    &&& if !before.components(entity).contains_key(type_id) {
        &&& r is None
        &&& after.storage_view() == before.storage_view()
    } else {
        &&& r == Some(before.components(entity)[type_id])
        &&& left.dom() == Set::<TypeId>::empty() ==> after.storage_view()
            == before.storage_view().remove(entity)
        &&& left.dom() != Set::<TypeId>::empty() ==> after.storage_view()
            == before.storage_view().insert(entity, left)
    }
}

/// `before` and `after` agree on everything but components.
pub open spec fn same_entities<T>(before: World<T>, after: World<T>) -> bool {
    &&& after.issued() == before.issued()
    &&& after.live() == before.live()
    &&& after.free_list() == before.free_list()
    &&& after.next_index() == before.next_index()
}

impl<T> World<T> {
    /// The components of each entity that has any.
    pub closed spec fn storage_view(&self) -> Map<Entity, Map<TypeId, Data<T>>> {
        self.storage@
    }

    /// The components of `e`: none when it has none.
    pub open spec fn components(&self, e: Entity) -> Map<TypeId, Data<T>> {
        if self.storage_view().contains_key(e) {
            self.storage_view()[e]
        } else {
            Map::empty()
        }
    }

    /// The slot index that a fresh entity gets.
    pub closed spec fn next_index(&self) -> nat {
        self.next_entity as nat
    }

    /// The destroyed entities whose slot index waits for reuse, the most
    /// recently destroyed last.
    pub closed spec fn free_list(&self) -> Seq<Entity> {
        self.free_entities@
    }

    /// Every entity issued so far.
    pub closed spec fn issued(&self) -> Set<Entity> {
        self.issued@
    }

    /// The entities issued and not destroyed since.
    pub closed spec fn live(&self) -> Set<Entity> {
        Set::new(
            |e: Entity|
                (e.spec_id() as int) < self.alive@.len() && self.alive@[e.spec_id() as int]
                    == Some(e.spec_generation()),
        )
    }

    /// The allocator's tables agree: the free entities have distinct slot
    /// indices that are not live, every issued entity is older than or equal
    /// to what its slot index holds or will hand out next, and only live
    /// entities have components.
    pub closed spec fn wf(&self) -> bool {
        &&& self.storage.wf()
        &&& self.alive@.len() == self.next_entity as int
        &&& forall|k: int|
            #![trigger self.free_entities@[k]]
            0 <= k < self.free_entities@.len() ==> {
                let f = self.free_entities@[k];
                &&& (f.spec_id() as int) < self.next_entity as int
                &&& self.alive@[f.spec_id() as int] is None
                &&& f.spec_generation() < u32::MAX
                &&& self.issued@.contains(f)
            }
        &&& forall|a: int, b: int|
            0 <= a < self.free_entities@.len() && 0 <= b < self.free_entities@.len() && a != b
                ==> (#[trigger] self.free_entities@[a]).spec_id() != (
            #[trigger] self.free_entities@[b]).spec_id()
        &&& forall|e: Entity|
            #[trigger] self.issued@.contains(e) ==> {
                &&& (e.spec_id() as int) < self.next_entity as int
                &&& self.alive@[e.spec_id() as int] is Some ==> e.spec_generation()
                    <= self.alive@[e.spec_id() as int]->0
            }
        &&& forall|e: Entity, k: int|
            #![trigger self.issued@.contains(e), self.free_entities@[k]]
            self.issued@.contains(e) && 0 <= k < self.free_entities@.len()
                && self.free_entities@[k].spec_id() == e.spec_id() ==> e.spec_generation()
                <= self.free_entities@[k].spec_generation()
        &&& forall|i: int|
            #![trigger self.alive@[i]]
            0 <= i < self.alive@.len() && self.alive@[i] is Some ==> self.issued@.contains(
                Entity::from_parts(i as u32, self.alive@[i]->0),
            )
        &&& forall|e: Entity| #[trigger] self.storage@.contains_key(e) ==> self.live().contains(e)
    }

    /// Every live entity was issued, and only live entities have
    /// components.
    pub proof fn lemma_live_issued(&self)
        requires
            self.wf(),
        ensures
            forall|e: Entity| #[trigger] self.live().contains(e) ==> self.issued().contains(e),
            forall|e: Entity| #[trigger] self.storage_view().contains_key(e) ==> self.live().contains(e),
    {
        assert forall|e: Entity| #[trigger] self.live().contains(e) implies self.issued().contains(e) by {
            let i = e.spec_id() as int;
            assert(self.issued@.contains(Entity::from_parts(i as u32, self.alive@[i]->0)));
            Entity::lemma_eq(Entity::from_parts(i as u32, self.alive@[i]->0), e);
        }
    }

    pub fn new() -> (r: World<T>)
        ensures
            r.wf(),
            r.storage_view() == Map::<Entity, Map<TypeId, Data<T>>>::empty(),
            r.issued() == Set::<Entity>::empty(),
            r.live() == Set::<Entity>::empty(),
            r.free_list() == Seq::<Entity>::empty(),
            r.next_index() == 0,
    {
        let r = World {
            next_entity: 0,
            free_entities: Vec::new(),
            alive: Vec::new(),
            storage: Storage::new(),
            issued: Ghost(Set::empty()),
        };
        assert(r.live() =~= Set::<Entity>::empty());
        r
    }

    /// The storage behind the allocator.
    pub closed spec fn storage_state(&self) -> Storage<T> {
        self.storage
    }

    pub fn storage(&self) -> (r: &Storage<T>)
        ensures
            *r == self.storage_state(),
            r@ == self.storage_view(),
            self.wf() ==> r.wf(),
    {
        &self.storage
    }

    /// Issues an entity that was never issued before: the slot index of the
    /// most recently destroyed entity at its next generation, or else a
    /// fresh slot index at generation 0. Nothing is issued once every slot
    /// index is taken and none is free.
    pub fn create_entity(&mut self) -> (r: Option<Entity>)
        requires
            old(self).wf(),
        ensures
            creates(*old(self), *final(self), r),
    {
        match self.free_entities.pop() {
            Some(freed) => {
                proof {
                    assert(old(self).free_entities@[old(self).free_entities@.len() - 1] == freed);
                }
                let entity = Entity::new(freed.id(), freed.generation() + 1);
                let id = freed.id() as usize;
                self.alive.set(id, Some(entity.generation()));
                self.issued = Ghost(self.issued@.insert(entity));
                proof {
                    let o = old(self);
                    assert(!o.issued@.contains(entity)) by {
                        if o.issued@.contains(entity) {
                            assert(entity.spec_generation() <= o.free_entities@[o.free_entities@.len() - 1].spec_generation());
                        }
                    }
                    assert(self.live() =~= o.live().insert(entity)) by {
                        assert forall|e: Entity| #[trigger] self.live().contains(e) == o.live().insert(entity).contains(e) by {
                            if e.spec_id() == entity.spec_id() && self.live().contains(e) {
                                Entity::lemma_eq(e, entity);
                            }
                        }
                    }
                    self.lemma_wf_after_create(*o, entity);
                }
                Some(entity)
            },
            None => {
                if self.next_entity == u32::MAX {
                    return None;
                }
                let entity = Entity::new(self.next_entity, 0);
                self.alive.push(Some(0));
                self.next_entity = self.next_entity + 1;
                self.issued = Ghost(self.issued@.insert(entity));
                proof {
                    let o = old(self);
                    assert(!o.issued@.contains(entity));
                    assert(self.live() =~= o.live().insert(entity)) by {
                        assert forall|e: Entity| #[trigger] self.live().contains(e) == o.live().insert(entity).contains(e) by {
                            if e.spec_id() == entity.spec_id() && self.live().contains(e) {
                                Entity::lemma_eq(e, entity);
                            }
                        }
                    }
                    self.lemma_wf_after_create(*o, entity);
                }
                Some(entity)
            },
        }
    }

    proof fn lemma_wf_after_create(&self, o: World<T>, entity: Entity)
        requires
            o.wf(),
            !o.issued@.contains(entity),
            self.issued@ == o.issued@.insert(entity),
            self.storage == o.storage,
            self.live() == o.live().insert(entity),
            self.alive@.len() == self.next_entity as int,
            self.alive@[entity.spec_id() as int] == Some(entity.spec_generation()),
            (entity.spec_id() as int) < self.next_entity as int,
            forall|i: int| 0 <= i < o.alive@.len() && i != entity.spec_id() ==> #[trigger] self.alive@[i] == o.alive@[i],
            o.alive@.len() <= self.alive@.len(),
            self.alive@.len() == o.alive@.len() || (self.alive@.len() == o.alive@.len() + 1 && entity.spec_id() == o.alive@.len()),
            o.next_entity <= self.next_entity,
            self.free_entities@.len() <= o.free_entities@.len(),
            forall|k: int| 0 <= k < self.free_entities@.len() ==> #[trigger] self.free_entities@[k] == o.free_entities@[k],
            forall|k: int| 0 <= k < self.free_entities@.len() ==> (#[trigger] self.free_entities@[k]).spec_id() != entity.spec_id(),
            forall|e: Entity| #[trigger] o.issued@.contains(e) && e.spec_id() == entity.spec_id() ==> e.spec_generation() <= entity.spec_generation(),
        ensures
            self.wf(),
    {
        assert forall|k: int| 0 <= k < self.free_entities@.len() implies {
            let f = #[trigger] self.free_entities@[k];
            &&& (f.spec_id() as int) < self.next_entity as int
            &&& self.alive@[f.spec_id() as int] is None
            &&& f.spec_generation() < u32::MAX
            &&& self.issued@.contains(f)
        } by {
            assert(self.free_entities@[k] == o.free_entities@[k]);
        }
        assert forall|a: int, b: int|
            0 <= a < self.free_entities@.len() && 0 <= b < self.free_entities@.len() && a != b
                implies (#[trigger] self.free_entities@[a]).spec_id() != (
            #[trigger] self.free_entities@[b]).spec_id() by {
            assert(self.free_entities@[a] == o.free_entities@[a]);
            assert(self.free_entities@[b] == o.free_entities@[b]);
        }
        assert forall|e: Entity| #[trigger] self.issued@.contains(e) implies {
            &&& (e.spec_id() as int) < self.next_entity as int
            &&& self.alive@[e.spec_id() as int] is Some ==> e.spec_generation()
                <= self.alive@[e.spec_id() as int]->0
        } by {
            if e != entity {
                assert(o.issued@.contains(e));
            }
        }
        assert forall|e: Entity, k: int|
            self.issued@.contains(e) && 0 <= k < self.free_entities@.len()
                && self.free_entities@[k].spec_id() == e.spec_id() implies e.spec_generation()
                <= self.free_entities@[k].spec_generation() by {
            assert(self.free_entities@[k] == o.free_entities@[k]);
            assert(o.issued@.contains(e));
        }
        assert forall|i: int| 0 <= i < self.alive@.len() && self.alive@[i] is Some implies self.issued@.contains(
            #[trigger] Entity::from_parts(i as u32, self.alive@[i]->0)) by {
            if i == entity.spec_id() {
                let x = Entity::from_parts(i as u32, self.alive@[i]->0);
                assert(x.spec_id() == entity.spec_id());
                assert(x.spec_generation() == entity.spec_generation());
                Entity::lemma_eq(x, entity);
                assert(self.issued@.contains(entity));
            } else {
                assert(self.alive@[i] == o.alive@[i]);
                assert(o.issued@.contains(Entity::from_parts(i as u32, o.alive@[i]->0)));
            }
        }
        assert forall|e: Entity| #[trigger] self.storage@.contains_key(e) implies self.live().contains(e) by {
            assert(o.live().contains(e));
        }
    }

    /// Drops every component of `entity` and, if it is live, retires it: its
    /// slot index goes on the free list for reuse at the next generation,
    /// unless that generation would not fit.
    pub fn destroy_entity(&mut self, entity: Entity)
        requires
            old(self).wf(),
        ensures
            destroys(*old(self), *final(self), entity),
    {
        let _ = self.storage.remove_entity(entity);
        let id = entity.id() as usize;
        if id < self.alive.len() {
            match self.alive[id] {
                Some(generation) => {
                    if generation == entity.generation() {
                        self.alive.set(id, None);
                        if generation < u32::MAX {
                            self.free_entities.push(entity);
                        }
                    }
                },
                None => {},
            }
        }
        proof {
            let o = old(self);
            assert forall|e: Entity| #[trigger] self.live().contains(e) == o.live().remove(entity).contains(e) by {
                if e.spec_id() == entity.spec_id() && o.live().contains(e) {
                    Entity::lemma_eq(e, entity);
                }
            }
            assert(self.live() =~= o.live().remove(entity));
            if o.live().contains(entity) {
                assert(o.issued@.contains(Entity::from_parts(entity.spec_id(), entity.spec_generation())));
                Entity::lemma_eq(Entity::from_parts(entity.spec_id(), entity.spec_generation()), entity);
            }
            assert forall|k: int| 0 <= k < self.free_entities@.len() implies {
                let f = #[trigger] self.free_entities@[k];
                &&& (f.spec_id() as int) < self.next_entity as int
                &&& self.alive@[f.spec_id() as int] is None
                &&& f.spec_generation() < u32::MAX
                &&& self.issued@.contains(f)
            } by {
                if k < o.free_entities@.len() {
                    assert(self.free_entities@[k] == o.free_entities@[k]);
                }
            }
            assert forall|a: int, b: int|
                0 <= a < self.free_entities@.len() && 0 <= b < self.free_entities@.len() && a != b
                    implies (#[trigger] self.free_entities@[a]).spec_id() != (
                #[trigger] self.free_entities@[b]).spec_id() by {
                if a < o.free_entities@.len() {
                    assert(self.free_entities@[a] == o.free_entities@[a]);
                }
                if b < o.free_entities@.len() {
                    assert(self.free_entities@[b] == o.free_entities@[b]);
                }
            }
            assert forall|e: Entity, k: int|
                self.issued@.contains(e) && 0 <= k < self.free_entities@.len()
                    && self.free_entities@[k].spec_id() == e.spec_id() implies e.spec_generation()
                    <= self.free_entities@[k].spec_generation() by {
                if k < o.free_entities@.len() {
                    assert(self.free_entities@[k] == o.free_entities@[k]);
                }
            }
            assert forall|i: int| 0 <= i < self.alive@.len() && self.alive@[i] is Some implies self.issued@.contains(
                #[trigger] Entity::from_parts(i as u32, self.alive@[i]->0)) by {
                assert(o.alive@[i] is Some);
            }
            assert forall|e: Entity| #[trigger] self.storage@.contains_key(e) implies self.live().contains(e) by {
                assert(o.storage@.contains_key(e));
            }
        }
    }

    /// The storage of a well-formed world is well formed, so what
    /// `Storage::lemma_archetypes` states holds of it.
    pub proof fn lemma_storage_wf(&self)
        requires
            self.wf(),
        ensures
            self.storage_state().wf(),
            self.storage_state()@ == self.storage_view(),
            self.storage_state().no_empty_archetype(),
    {
        self.storage.lemma_no_empty_archetype();
    }

    /// The storage behind the allocator, for writing. The world stays well
    /// formed as long as the storage does and only live entities are left
    /// with components.
    pub fn storage_mut(&mut self) -> (r: &mut Storage<T>)
        requires
            old(self).wf(),
        ensures
            *r == old(self).storage_state(),
            final(self).storage_state() == *final(r),
            same_entities(*old(self), *final(self)),
            final(r).wf() && (forall|e: Entity| #[trigger] final(r)@.contains_key(e) ==> old(
                self,
            ).live().contains(e)) ==> final(self).wf(),
    {
        &mut self.storage
    }

    /// Whether `entity` is live.
    pub fn is_live(&self, entity: Entity) -> (r: bool)
        ensures
            r == self.live().contains(entity),
    {
        let id = entity.id() as usize;
        if id < self.alive.len() {
            match self.alive[id] {
                Some(generation) => generation == entity.generation(),
                None => false,
            }
        } else {
            false
        }
    }

    proof fn lemma_storage_changed(&self, o: World<T>)
        requires
            o.wf(),
            self.storage.wf(),
            self.next_entity == o.next_entity,
            self.free_entities@ == o.free_entities@,
            self.alive@ == o.alive@,
            self.issued@ == o.issued@,
            forall|e: Entity| #[trigger] self.storage@.contains_key(e) ==> o.live().contains(e),
        ensures
            self.wf(),
            same_entities(o, *self),
    {
        assert(self.live() =~= o.live());
    }

    /// Gives the live `entity` the record `data`, replacing its record of the
    /// same type; an entity that is not live is refused and nothing changes.
    pub fn insert_component(&mut self, entity: Entity, data: Data<T>)
        requires
            old(self).wf(),
        ensures
            inserts(*old(self), *final(self), entity, data),
    {
        if self.is_live(entity) {
            proof {
                let o = old(self);
                assert(!o.storage.blocked(entity)) by {
                    if o.storage.blocked(entity) {
                        let f = choose|f: Entity| #[trigger] o.storage@.contains_key(f) && f.spec_id() == entity.spec_id() && f != entity;
                        assert(o.live().contains(f));
                        Entity::lemma_eq(f, entity);
                    }
                }
            }
            self.storage.insert_component(entity, data);
        }
        proof {
            self.lemma_storage_changed(*old(self));
        }
    }

    /// Takes the record of type `type_id` away from `entity` and returns it;
    /// nothing changes if there is none.
    pub fn remove_component(&mut self, entity: Entity, type_id: TypeId) -> (r: Option<Data<T>>)
        requires
            old(self).wf(),
        ensures
            removes(*old(self), *final(self), entity, type_id, r),
    {
        let r = self.storage.remove_component(entity, type_id);
        proof {
            self.lemma_storage_changed(*old(self));
        }
        r
    }

    /// The component of type `type_id` of `entity`, if it has one.
    pub fn get_component(&self, entity: Entity, type_id: TypeId) -> (r: Option<&T>)
        requires
            self.wf(),
        ensures
            self.components(entity).contains_key(type_id) ==> r == Some(
                &self.components(entity)[type_id].spec_data(),
            ),
            !self.components(entity).contains_key(type_id) ==> r is None,
    {
        self.storage.get_component(entity, type_id)
    }

    /// The component of type `type_id` of `entity`, for writing, if it has
    /// one.
    pub fn get_component_mut(&mut self, entity: Entity, type_id: TypeId) -> (r: Option<&mut T>)
        requires
            old(self).wf(),
        ensures
            final(self).wf(),
            same_entities(*old(self), *final(self)),
            old(self).components(entity).contains_key(type_id) ==> r is Some && *r->0 == old(
                self,
            ).components(entity)[type_id].spec_data() && final(self).storage_view() == old(
                self,
            ).storage_view().insert(
                entity,
                old(self).components(entity).insert(
                    type_id,
                    old(self).components(entity)[type_id].with_data(*final(r->0)),
                ),
            ),
            old(self).components(entity).contains_key(type_id) ==> final(self).components(
                entity,
            ).contains_key(type_id) && final(self).components(entity)[type_id].spec_data()
                == *final(r->0) && final(self).components(entity)[type_id].spec_type_id()
                == type_id,
            !old(self).components(entity).contains_key(type_id) ==> r is None && *final(self)
                == *old(self),
    {
        proof {
            Self::lemma_after_storage_write(*old(self));
        }
        self.storage.get_component_mut(entity, type_id)
    }

    /// Whatever a write through the storage leaves, as long as it keeps the
    /// storage well formed and its entities, keeps the world well formed.
    proof fn lemma_after_storage_write(o: World<T>)
        requires
            o.wf(),
        ensures
            forall|w: World<T>|
                w.next_entity == o.next_entity && w.free_entities@ == o.free_entities@ && w.alive@
                    == o.alive@ && w.issued@ == o.issued@ && #[trigger] w.storage.wf()
                    && w.storage@.dom() == o.storage@.dom() ==> w.wf() && same_entities(o, w),
    {
        assert forall|w: World<T>|
            w.next_entity == o.next_entity && w.free_entities@ == o.free_entities@ && w.alive@
                == o.alive@ && w.issued@ == o.issued@ && #[trigger] w.storage.wf()
                && w.storage@.dom() == o.storage@.dom() implies w.wf() && same_entities(o, w) by {
            assert(w.live() =~= o.live());
            assert forall|e: Entity| #[trigger] w.storage@.contains_key(e) implies w.live().contains(e) by {
                assert(o.storage@.contains_key(e));
            }
        }
    }

    /// Whether `entity` has a component of type `type_id`.
    pub fn has_component(&self, entity: Entity, type_id: TypeId) -> (r: bool)
        requires
            self.wf(),
        ensures
            r == self.components(entity).contains_key(type_id),
    {
        self.storage.has_component(entity, type_id)
    }

    /// A snapshot of the entities that have a component of type `type_id`.
    pub fn query(&self, type_id: TypeId) -> (r: Query)
        requires
            self.wf(),
        ensures
            r.spec_type_id() == type_id,
            r.snapshot().no_duplicates(),
            forall|e: Entity| #[trigger] r.snapshot().contains(e) <==> self.components(e).contains_key(type_id),
    {
        Query::new(self, type_id)
    }
}

/// One change to the components of an entity.
pub enum Change<T> {
    Insert(Data<T>),
    Remove(TypeId),
}

/// `after` is `before` with `change` made to the components of `entity`.
pub open spec fn applies<T>(before: World<T>, after: World<T>, entity: Entity, change: Change<T>) -> bool {
    match change {
        Change::Insert(data) => inserts(before, after, entity, data),
        Change::Remove(type_id) => exists|r: Option<Data<T>>| removes(before, after, entity, type_id, r),
    }
}

/// The component types that `changes` leave, starting from `start`: each
/// insertion adds its type, each removal takes its type away.
pub open spec fn types_after<T>(start: Set<TypeId>, changes: Seq<Change<T>>) -> Set<TypeId>
    decreases changes.len(),
{
    if changes.len() == 0 {
        start
    } else {
        let before = types_after(start, changes.drop_last());
        match changes.last() {
            Change::Insert(data) => before.insert(data.spec_type_id()),
            Change::Remove(type_id) => before.remove(type_id),
        }
    }
}

/// An entity is issued once: the entity that `create_entity` hands out was
/// never issued before, and it is live afterwards; after `destroy_entity`
/// the destroyed entity has no component of any type.
pub proof fn lemma_unique_entities<T>(
    w0: World<T>,
    w1: World<T>,
    r: Option<Entity>,
    w2: World<T>,
    e: Entity,
)
    requires
        w0.wf(),
        creates(w0, w1, r),
        destroys(w1, w2, e),
    ensures
        r is Some ==> !w0.issued().contains(r->0) && w1.live().contains(r->0),
        forall|t: TypeId| !(#[trigger] w2.components(e).contains_key(t)),
{
}

/// Destroying a live entity and creating one right after gives back the
/// destroyed entity's slot index at the next generation.
pub proof fn lemma_recycling<T>(
    w0: World<T>,
    e: Entity,
    w1: World<T>,
    w2: World<T>,
    r: Option<Entity>,
)
    requires
        w0.wf(),
        w0.live().contains(e),
        e.spec_generation() < u32::MAX,
        destroys(w0, w1, e),
        creates(w1, w2, r),
    ensures
        r == Some(Entity::from_parts(e.spec_id(), (e.spec_generation() + 1) as u32)),
{
    assert(w1.free_list().last() == e);
}

/// A record given to a live entity is the one read back for its type.
pub proof fn lemma_insert_get<T>(w0: World<T>, w1: World<T>, e: Entity, data: Data<T>)
    requires
        w0.wf(),
        w0.live().contains(e),
        inserts(w0, w1, e, data),
    ensures
        w1.components(e).contains_key(data.spec_type_id()),
        w1.components(e)[data.spec_type_id()] == data,
        w1.components(e)[data.spec_type_id()].spec_data() == data.spec_data(),
{
}

/// Removing a type that an entity does not have changes nothing: no
/// record comes back and every entity keeps its components.
pub proof fn lemma_remove_absent<T>(
    w0: World<T>,
    w1: World<T>,
    e: Entity,
    type_id: TypeId,
    r: Option<Data<T>>,
)
    requires
        w0.wf(),
        !w0.components(e).contains_key(type_id),
        removes(w0, w1, e, type_id, r),
    ensures
        r is None,
        forall|f: Entity| #[trigger] w1.components(f) == w0.components(f),
{
}

/// After any run of insertions and removals on a live entity, the types it
/// has components of are the types inserted less the types removed since,
/// and no archetype is left without entities.
pub proof fn lemma_migration<T>(worlds: Seq<World<T>>, e: Entity, changes: Seq<Change<T>>)
    requires
        worlds.len() == changes.len() + 1,
        worlds[0].wf(),
        worlds[0].live().contains(e),
        forall|i: int|
            0 <= i < changes.len() ==> applies(worlds[i], worlds[i + 1], e, #[trigger] changes[i]),
    ensures
        worlds.last().components(e).dom() == types_after(worlds[0].components(e).dom(), changes),
        worlds.last().wf(),
        worlds.last().live().contains(e),
        worlds.last().storage_state().no_empty_archetype(),
    decreases changes.len(),
{
    if changes.len() > 0 {
        let n = changes.len() - 1;
        let ws = worlds.drop_last();
        assert forall|i: int| 0 <= i < changes.drop_last().len() implies applies(
            ws[i],
            ws[i + 1],
            e,
            #[trigger] changes.drop_last()[i],
        ) by {
            assert(changes.drop_last()[i] == changes[i]);
        }
        lemma_migration(ws, e, changes.drop_last());
        let before = worlds[n];
        let after = worlds[n + 1];
        assert(ws.last() == before);
        assert(applies(before, after, e, changes[n]));
        match changes[n] {
            Change::Insert(data) => {
                assert(after.components(e).dom() =~= before.components(e).dom().insert(data.spec_type_id()));
            },
            Change::Remove(type_id) => {
                let r = choose|r: Option<Data<T>>| removes(before, after, e, type_id, r);
                if before.components(e).contains_key(type_id) {
                    let left = before.components(e).remove(type_id);
                    if left.dom() == Set::<TypeId>::empty() {
                        assert(after.components(e).dom() =~= before.components(e).dom().remove(type_id));
                    } else {
                        assert(after.components(e).dom() =~= before.components(e).dom().remove(type_id));
                    }
                } else {
                    assert(after.components(e).dom() =~= before.components(e).dom().remove(type_id));
                }
            },
        }
    }
    worlds.last().lemma_storage_wf();
}


} // verus!
