use crate::archetype::{records_map, record_types, Archetype};
use crate::data::Data;
use crate::entity::Entity;
use std::any::TypeId;
use vstd::prelude::*;

verus! {

broadcast use crate::entity::Entity::lemma_from_parts;

/// Names an archetype of a [`Storage`]: its position in the storage's list
/// of archetypes. When an archetype is deleted the last one takes its
/// position, and the entities of the moved archetype are relabelled.
#[derive(Clone, Copy, Debug, PartialEq, Eq, Structural, Hash)]
pub struct ArchetypeId(usize);

/// All entities and their components: the archetypes, one for each set of
/// component types that some entity has, and for each slot index the entity
/// that has components there and the archetype that holds them.
pub struct Storage<T> {
    archetypes: Vec<Archetype<T>>,
    entity_archetype: Vec<Option<(Entity, ArchetypeId)>>,
}

proof fn lemma_push_to_set<A>(s: Seq<A>, a: A)
    ensures
        s.push(a).to_set() == s.to_set().insert(a),
{
    assert forall|x: A| #[trigger] s.push(a).to_set().contains(x) == s.to_set().insert(a).contains(x) by {
        if s.push(a).to_set().contains(x) && x != a {
            let i = choose|i: int| 0 <= i < s.push(a).len() && s.push(a)[i] == x;
            assert(s[i] == x);
        }
        if s.to_set().contains(x) {
            let i = choose|i: int| 0 <= i < s.len() && s[i] == x;
            assert(s.push(a)[i] == x);
        }
        if x == a {
            assert(s.push(a)[s.len() as int] == x);
        }
    }
    assert(s.push(a).to_set() =~= s.to_set().insert(a));
}

/// The type identities that a sequence of records gives a map for are those
/// of its records.
proof fn lemma_records_map_dom<T>(s: Seq<Data<T>>)
    ensures
        records_map(s).dom() == record_types(s).to_set(),
        forall|t: TypeId| #[trigger] records_map(s).contains_key(t) ==> records_map(s)[t].spec_type_id() == t,
    decreases s.len(),
{
    if s.len() > 0 {
        lemma_records_map_dom(s.drop_last());
        lemma_push_to_set(record_types(s.drop_last()), s.last().spec_type_id());
        assert(record_types(s) =~= record_types(s.drop_last()).push(s.last().spec_type_id()));
        assert(records_map(s).dom() =~= record_types(s).to_set());
    } else {
        assert(record_types(s) =~= Seq::<TypeId>::empty());
        assert(records_map(s).dom() =~= record_types(s).to_set());
    }
}

/// Overwriting a record by one of the same type in a sequence without two
/// records of one type overwrites it in the map.
proof fn lemma_records_map_update<T>(s: Seq<Data<T>>, j: int, d: Data<T>)
    requires
        record_types(s).no_duplicates(),
        0 <= j < s.len(),
        s[j].spec_type_id() == d.spec_type_id(),
    ensures
        records_map(s.update(j, d)) == records_map(s).insert(d.spec_type_id(), d),
        record_types(s.update(j, d)) == record_types(s),
    decreases s.len(),
{
    let t = d.spec_type_id();
    assert(record_types(s.update(j, d)) =~= record_types(s));
    if j == s.len() - 1 {
        assert(s.update(j, d).drop_last() =~= s.drop_last());
        assert(records_map(s.update(j, d)) =~= records_map(s).insert(t, d));
    } else {
        assert(s.update(j, d).drop_last() =~= s.drop_last().update(j, d));
        assert(record_types(s.drop_last()) =~= record_types(s).drop_last());
        lemma_records_map_update(s.drop_last(), j, d);
        assert(record_types(s)[j] != record_types(s)[s.len() - 1]);
        assert(records_map(s.update(j, d)) =~= records_map(s).insert(t, d));
    }
}

/// Taking a record out of a sequence without two records of one type takes
/// its type out of the map.
proof fn lemma_records_map_remove<T>(s: Seq<Data<T>>, j: int)
    requires
        record_types(s).no_duplicates(),
        0 <= j < s.len(),
    ensures
        records_map(s.remove(j)) == records_map(s).remove(s[j].spec_type_id()),
        record_types(s.remove(j)) == record_types(s).remove(j),
        record_types(s.remove(j)).no_duplicates(),
        records_map(s).contains_key(s[j].spec_type_id()),
        records_map(s)[s[j].spec_type_id()] == s[j],
    decreases s.len(),
{
    let t = s[j].spec_type_id();
    assert(record_types(s.remove(j)) =~= record_types(s).remove(j));
    assert(record_types(s.drop_last()) =~= record_types(s).drop_last());
    if j == s.len() - 1 {
        assert(s.remove(j) =~= s.drop_last());
        lemma_records_map_dom(s.drop_last());
        assert(!record_types(s.drop_last()).contains(t)) by {
            if record_types(s.drop_last()).contains(t) {
                let i = choose|i: int| 0 <= i < s.len() - 1 && record_types(s.drop_last())[i] == t;
                assert(record_types(s)[i] == record_types(s)[j]);
            }
        }
        assert(records_map(s.remove(j)) =~= records_map(s).remove(t));
    } else {
        assert(s.remove(j).drop_last() =~= s.drop_last().remove(j));
        lemma_records_map_remove(s.drop_last(), j);
        assert(record_types(s)[j] != record_types(s)[s.len() - 1]);
        assert(s.remove(j).last() == s.last());
        assert(records_map(s.remove(j)) =~= records_map(s).remove(t));
    }
    assert forall|a: int, b: int|
        0 <= a < record_types(s.remove(j)).len() && 0 <= b < record_types(s.remove(j)).len() && a != b
            implies record_types(s.remove(j))[a] != record_types(s.remove(j))[b] by {
        let a1 = if a < j { a } else { a + 1 };
        let b1 = if b < j { b } else { b + 1 };
        assert(record_types(s)[a1] != record_types(s)[b1]);
    }
}

impl<T> View for Storage<T> {
    type V = Map<Entity, Map<TypeId, Data<T>>>;

    /// The components of each entity that has any, by type.
    closed spec fn view(&self) -> Map<Entity, Map<TypeId, Data<T>>> {
        Map::new(
            |e: Entity| self.tracks(e),
            |e: Entity| self.archetypes@[self.slot_archetype(e.spec_id() as usize)].row(e.spec_id() as usize),
        )
    }
}

impl<T> Storage<T> {
    spec fn slot(&self, id: usize) -> Option<(Entity, ArchetypeId)> {
        if id < self.entity_archetype@.len() {
            self.entity_archetype@[id as int]
        } else {
            None
        }
    }

    /// The entity tracked at slot index `id`.
    spec fn slot_entity(&self, id: usize) -> Entity {
        (self.slot(id)->0).0
    }

    /// The position of the archetype that holds slot index `id`.
    spec fn slot_archetype(&self, id: usize) -> int {
        ((self.slot(id)->0).1).0 as int
    }

    spec fn tracks(&self, e: Entity) -> bool {
        &&& self.slot(e.spec_id() as usize) is Some
        &&& self.slot_entity(e.spec_id() as usize) == e
    }

    /// Every archetype is well formed, has entities, and gives every entity
    /// a record of each of its types; no two archetypes have the same set of
    /// types; an archetype holds a row exactly for the slot indices whose
    /// entry names it.
    pub closed spec fn wf(&self) -> bool {
        &&& forall|p: int|
            #![trigger self.archetypes@[p]]
            0 <= p < self.archetypes@.len() ==> {
                &&& self.archetypes@[p].wf()
                &&& self.archetypes@[p].uniform()
                &&& self.archetypes@[p].rows() != Set::<usize>::empty()
                &&& self.archetypes@[p].types().len() > 0
            }
        &&& forall|p: int, q: int|
            0 <= p < self.archetypes@.len() && 0 <= q < self.archetypes@.len() && p != q
                ==> (#[trigger] self.archetypes@[p]).types().to_set() != (
            #[trigger] self.archetypes@[q]).types().to_set()
        &&& forall|p: int, i: usize|
            0 <= p < self.archetypes@.len() && #[trigger] self.archetypes@[p].rows().contains(i)
                ==> {
                &&& self.slot(i) is Some
                &&& self.slot_archetype(i) == p
            }
        &&& forall|i: usize|
            #[trigger] self.slot(i) is Some ==> {
                &&& self.slot_entity(i).spec_id() == i
                &&& self.slot_archetype(i) < self.archetypes@.len()
                &&& self.archetypes@[self.slot_archetype(i)].rows().contains(i)
            }
    }

    /// The archetypes, in storage order.
    pub closed spec fn archetype_list(&self) -> Seq<Archetype<T>> {
        self.archetypes@
    }

    /// No archetype is left without entities.
    pub open spec fn no_empty_archetype(&self) -> bool {
        forall|p: int|
            0 <= p < self.archetype_list().len() ==> (#[trigger] self.archetype_list()[p]).rows()
                != Set::<usize>::empty()
    }

    /// A well-formed storage deletes every archetype that loses its last
    /// entity.
    pub proof fn lemma_no_empty_archetype(&self)
        requires
            self.wf(),
        ensures
            self.no_empty_archetype(),
    {
    }

    /// The position in `archetype_list()` of the archetype that holds the
    /// tracked entity `e`.
    pub closed spec fn archetype_of(&self, e: Entity) -> int {
        self.slot_archetype(e.spec_id() as usize)
    }

    /// Where a well-formed storage keeps its entities: no archetype is
    /// empty, no two archetypes have the same set of types, and a tracked
    /// entity lies in exactly one archetype, whose types are exactly the
    /// entity's component types and whose row for it is its components.
    /// Every record is tagged with the type it is held under.
    pub proof fn lemma_archetypes(&self)
        requires
            self.wf(),
        ensures
            self.no_empty_archetype(),
            forall|p: int, q: int|
                0 <= p < self.archetype_list().len() && 0 <= q < self.archetype_list().len() && p != q
                    ==> (#[trigger] self.archetype_list()[p]).types().to_set() != (
                #[trigger] self.archetype_list()[q]).types().to_set(),
            forall|e: Entity| #[trigger]
                self@.contains_key(e) ==> {
                    let p = self.archetype_of(e);
                    let i = e.spec_id() as usize;
                    &&& 0 <= p < self.archetype_list().len()
                    &&& self.archetype_list()[p].rows().contains(i)
                    &&& self.archetype_list()[p].row(i) == self@[e]
                    &&& self.archetype_list()[p].types().to_set() == self@[e].dom()
                    &&& forall|q: int|
                        0 <= q < self.archetype_list().len() && q != p ==> !(
                        #[trigger] self.archetype_list()[q]).rows().contains(i)
                },
            forall|e: Entity, t: TypeId|
                #![trigger self@[e][t]]
                self@.contains_key(e) && self@[e].contains_key(t) ==> self@[e][t].spec_type_id() == t,
    {
        assert forall|e: Entity| #[trigger] self@.contains_key(e) implies {
            let p = self.archetype_of(e);
            let i = e.spec_id() as usize;
            &&& 0 <= p < self.archetype_list().len()
            &&& self.archetype_list()[p].rows().contains(i)
            &&& self.archetype_list()[p].row(i) == self@[e]
            &&& self.archetype_list()[p].types().to_set() == self@[e].dom()
            &&& forall|q: int|
                0 <= q < self.archetype_list().len() && q != p ==> !(
                #[trigger] self.archetype_list()[q]).rows().contains(i)
        } by {
            let i = e.spec_id() as usize;
            assert(self.slot(i) is Some);
            let p = self.slot_archetype(i);
            assert(self.archetypes@[p].rows().contains(i));
            assert forall|q: int|
                0 <= q < self.archetype_list().len() && q != p implies !(
                #[trigger] self.archetype_list()[q]).rows().contains(i) by {
                if self.archetypes@[q].rows().contains(i) {
                    assert(self.slot_archetype(i) == q);
                }
            }
        }
        assert forall|e: Entity, t: TypeId|
            self@.contains_key(e) && self@[e].contains_key(t) implies #[trigger] self@[e][t].spec_type_id() == t by {
            let i = e.spec_id() as usize;
            assert(self.slot(i) is Some);
            self.archetypes@[self.slot_archetype(i)].lemma_row(i);
        }
    }

    /// The components of `e`: none when `e` is not tracked.
    pub open spec fn components(&self, e: Entity) -> Map<TypeId, Data<T>> {
        if self@.contains_key(e) {
            self@[e]
        } else {
            Map::empty()
        }
    }

    /// Another generation of `e`'s slot index holds components, so `e` is a
    /// stale reference that the storage refuses.
    pub open spec fn blocked(&self, e: Entity) -> bool {
        exists|f: Entity| #[trigger] self@.contains_key(f) && f.spec_id() == e.spec_id() && f != e
    }

    pub fn new() -> (r: Storage<T>)
        ensures
            r.wf(),
            r@ == Map::<Entity, Map<TypeId, Data<T>>>::empty(),
    {
        let r = Storage { archetypes: Vec::new(), entity_archetype: Vec::new() };
        assert(r@ =~= Map::<Entity, Map<TypeId, Data<T>>>::empty());
        r
    }

    /// The entry for slot index `id`.
    fn slot_of(&self, id: usize) -> (r: Option<(Entity, ArchetypeId)>)
        ensures
            r == self.slot(id),
    {
        if id < self.entity_archetype.len() {
            self.entity_archetype[id]
        } else {
            None
        }
    }

    /// After the archetype at position `p` was found empty and the last one
    /// moved into its place, with the entries of the moved one's entities
    /// pointed at `p`, the storage is well formed again and tracks the same
    /// rows.
    proof fn lemma_relabelled(s1: Storage<T>, s3: Storage<T>, p: int, last: int)
        requires
            0 <= p < last,
            last == s1.archetypes@.len() - 1,
            s1.archetypes@[p].rows() == Set::<usize>::empty(),
            s3.archetypes@ == s1.archetypes@.update(p, s1.archetypes@[last]).drop_last(),
            forall|q: int|
                #![trigger s1.archetypes@[q]]
                0 <= q < s1.archetypes@.len() && q != p ==> {
                    &&& s1.archetypes@[q].wf()
                    &&& s1.archetypes@[q].uniform()
                    &&& s1.archetypes@[q].rows() != Set::<usize>::empty()
                    &&& s1.archetypes@[q].types().len() > 0
                },
            forall|a: int, b: int|
                0 <= a < s1.archetypes@.len() && 0 <= b < s1.archetypes@.len() && a != b
                    ==> (#[trigger] s1.archetypes@[a]).types().to_set() != (
                #[trigger] s1.archetypes@[b]).types().to_set(),
            forall|q: int, i: usize|
                0 <= q < s1.archetypes@.len() && #[trigger] s1.archetypes@[q].rows().contains(i)
                    ==> s1.slot(i) is Some && s1.slot_archetype(i) == q,
            forall|i: usize|
                #[trigger] s1.slot(i) is Some ==> s1.slot_entity(i).spec_id() == i
                    && s1.slot_archetype(i) < s1.archetypes@.len()
                    && s1.archetypes@[s1.slot_archetype(i)].rows().contains(i),
            forall|i: usize| #[trigger] s3.slot(i) is Some == s1.slot(i) is Some,
            forall|i: usize| s1.slot(i) is Some ==> #[trigger] s3.slot_entity(i) == s1.slot_entity(i),
            forall|i: usize| !s1.archetypes@[last].rows().contains(i) ==> #[trigger] s3.slot(i) == s1.slot(i),
            forall|i: usize| s1.archetypes@[last].rows().contains(i) ==> #[trigger] s3.slot_archetype(i) == p,
        ensures
            s3.wf(),
            s3@ == s1@,
    {
        assert forall|q: int| 0 <= q < s3.archetypes@.len() implies #[trigger] s3.archetypes@[q] == (if q == p {
            s1.archetypes@[last]
        } else {
            s1.archetypes@[q]
        }) by {}
        assert forall|i: usize| #[trigger] s3.slot(i) is Some implies s3.slot_entity(i).spec_id() == i
            && s3.slot_archetype(i) < s3.archetypes@.len()
            && s3.archetypes@[s3.slot_archetype(i)].rows().contains(i) by {
            let q = s1.slot_archetype(i);
            assert(s1.archetypes@[q].rows().contains(i));
            if q == last {
            } else {
                assert(q != p);
                assert(s3.slot(i) == s1.slot(i));
            }
        }
        assert forall|q: int, i: usize|
            0 <= q < s3.archetypes@.len() && #[trigger] s3.archetypes@[q].rows().contains(i)
                implies s3.slot(i) is Some && s3.slot_archetype(i) == q by {
            if q != p {
                assert(s1.archetypes@[q].rows().contains(i));
                assert(!s1.archetypes@[last].rows().contains(i));
            }
        }
        assert forall|a: int, b: int|
            0 <= a < s3.archetypes@.len() && 0 <= b < s3.archetypes@.len() && a != b
                implies (#[trigger] s3.archetypes@[a]).types().to_set() != (
            #[trigger] s3.archetypes@[b]).types().to_set() by {
            let a1 = if a == p { last } else { a };
            let b1 = if b == p { last } else { b };
            assert(s1.archetypes@[a1].types().to_set() != s1.archetypes@[b1].types().to_set());
        }
        assert forall|f: Entity| #[trigger] s3.tracks(f) == s1.tracks(f) by {}
        assert forall|f: Entity| s3.tracks(f) implies #[trigger] s3.archetypes@[s3.slot_archetype(f.spec_id() as usize)].row(f.spec_id() as usize)
            == s1.archetypes@[s1.slot_archetype(f.spec_id() as usize)].row(f.spec_id() as usize) by {
            let x = f.spec_id() as usize;
            let q = s1.slot_archetype(x);
            assert(s1.archetypes@[q].rows().contains(x));
            if q != last {
                assert(q != p);
                assert(s3.slot(x) == s1.slot(x));
            }
        }
        assert(s3@ =~= s1@);
    }

    /// Replacing, in the archetype of the tracked entity `e`, its record of
    /// type `t` by one with the same tag changes only that record of `e`.
    proof fn lemma_record_replaced(a: Storage<T>, e: Entity, t: TypeId)
        requires
            a.wf(),
            a@.contains_key(e),
        ensures
            forall|b: Storage<T>|
                {
                    let id = e.spec_id() as usize;
                    let p = a.slot_archetype(id);
                    let x = b.archetypes@[p];
                    let d = x.row(id)[t];
                    &&& b.entity_archetype@ == a.entity_archetype@
                    &&& b.archetypes@ == a.archetypes@.update(p, x)
                    &&& x.wf()
                    &&& x.types() == a.archetypes@[p].types()
                    &&& x.rows() == a.archetypes@[p].rows()
                    &&& x.row(id) == a.archetypes@[p].row(id).insert(t, d)
                    &&& forall|y: usize| y != id ==> #[trigger] x.row(y) == a.archetypes@[p].row(y)
                    &&& a@[e].contains_key(t)
                    &&& d.spec_type_id() == t
                } ==> #[trigger] b.wf() && b@ == a@.insert(e, a@[e].insert(t, b.archetypes@[a.slot_archetype(e.spec_id() as usize)].row(e.spec_id() as usize)[t])),
            forall|b: Storage<T>|
                b.entity_archetype@ == a.entity_archetype@ && b.archetypes@ == a.archetypes@.update(
                    a.slot_archetype(e.spec_id() as usize),
                    a.archetypes@[a.slot_archetype(e.spec_id() as usize)],
                ) ==> #[trigger] b.wf() && b@ == a@,
    {
        assert forall|b: Storage<T>|
            b.entity_archetype@ == a.entity_archetype@ && b.archetypes@ == a.archetypes@.update(
                a.slot_archetype(e.spec_id() as usize),
                a.archetypes@[a.slot_archetype(e.spec_id() as usize)],
            ) implies #[trigger] b.wf() && b@ == a@ by {
            assert(b.archetypes@ =~= a.archetypes@);
            assert forall|i: usize| #[trigger] b.slot(i) == a.slot(i) by {}
            assert(b@ =~= a@);
        }
        assert forall|b: Storage<T>|
            {
                let id = e.spec_id() as usize;
                let p = a.slot_archetype(id);
                let x = b.archetypes@[p];
                let d = x.row(id)[t];
                &&& b.entity_archetype@ == a.entity_archetype@
                &&& b.archetypes@ == a.archetypes@.update(p, x)
                &&& x.wf()
                &&& x.types() == a.archetypes@[p].types()
                &&& x.rows() == a.archetypes@[p].rows()
                &&& x.row(id) == a.archetypes@[p].row(id).insert(t, d)
                &&& forall|y: usize| y != id ==> #[trigger] x.row(y) == a.archetypes@[p].row(y)
                &&& a@[e].contains_key(t)
                &&& d.spec_type_id() == t
            } implies #[trigger] b.wf() && b@ == a@.insert(e, a@[e].insert(t, b.archetypes@[a.slot_archetype(e.spec_id() as usize)].row(e.spec_id() as usize)[t])) by {
            let id = e.spec_id() as usize;
            let p = a.slot_archetype(id);
            let x = b.archetypes@[p];
            let d = x.row(id)[t];
            assert(a.slot(id) is Some);
            assert forall|i: usize| #[trigger] b.slot(i) == a.slot(i) by {}
            assert(x.uniform()) by {
                assert forall|y: usize| #[trigger] x.rows().contains(y) implies x.row(y).dom() == x.types().to_set() by {
                    assert(a.archetypes@[p].rows().contains(y));
                    if y == id {
                        assert(a.archetypes@[p].row(id).contains_key(t));
                        assert(x.row(y).dom() =~= a.archetypes@[p].row(y).dom());
                    }
                }
            }
            assert forall|q: int| 0 <= q < b.archetypes@.len() && q != p implies #[trigger] b.archetypes@[q]
                == a.archetypes@[q] by {}
            assert forall|q: int, r: int|
                0 <= q < b.archetypes@.len() && 0 <= r < b.archetypes@.len() && q != r
                    implies (#[trigger] b.archetypes@[q]).types().to_set() != (
                #[trigger] b.archetypes@[r]).types().to_set() by {
                assert(a.archetypes@[q].types().to_set() != a.archetypes@[r].types().to_set());
            }
            assert forall|q: int, i: usize|
                0 <= q < b.archetypes@.len() && #[trigger] b.archetypes@[q].rows().contains(i)
                    implies b.slot(i) is Some && b.slot_archetype(i) == q by {
                assert(a.archetypes@[q].rows().contains(i));
            }
            assert forall|i: usize| #[trigger] b.slot(i) is Some implies b.slot_entity(i).spec_id() == i
                && b.slot_archetype(i) < b.archetypes@.len()
                && b.archetypes@[b.slot_archetype(i)].rows().contains(i) by {
                assert(a.slot(i) is Some);
            }
            assert(b.wf());
            assert forall|f: Entity| #[trigger] b.tracks(f) == a.tracks(f) by {}
            assert(b@ =~= a@.insert(e, a@[e].insert(t, d)));
        }
    }

    /// Takes the whole row of the tracked entity `e` out of its archetype,
    /// deletes the archetype if that leaves it without entities, and forgets
    /// `e`.
    fn take_row(&mut self, e: Entity) -> (r: Vec<Data<T>>)
        requires
            old(self).wf(),
            old(self)@.contains_key(e),
        ensures
            final(self).wf(),
            final(self)@ == old(self)@.remove(e),
            records_map(r@) == old(self)@[e],
            record_types(r@).no_duplicates(),
            record_types(r@) == old(self).archetypes@[old(self).slot_archetype(e.spec_id() as usize)].types(),
            final(self).slot(e.spec_id() as usize) is None,
    {
        let id = e.id() as usize;
        let (_, archetype_id) = self.slot_of(id).unwrap();
        let p = archetype_id.0;
        proof {
            assert(old(self).slot(id) is Some);
            assert(old(self).archetypes@[p as int].rows().contains(id));
        }
        let data = self.archetypes[p].remove(id);
        self.entity_archetype.set(id, None);
        let ghost s1 = *self;
        proof {
            let o = old(self);
            assert forall|i: usize| i != id implies #[trigger] s1.slot(i) == o.slot(i) by {}
            assert forall|q: int| 0 <= q < s1.archetypes@.len() && q != p implies #[trigger] s1.archetypes@[q]
                == o.archetypes@[q] by {}
            let a = s1.archetypes@[p as int];
            assert(a.uniform()) by {
                assert forall|x: usize| #[trigger] a.rows().contains(x) implies a.row(x).dom() == a.types().to_set() by {
                    assert(o.archetypes@[p as int].rows().contains(x));
                }
            }
            // every entity other than `e` keeps its entry and its row
            assert forall|f: Entity| #[trigger] s1.tracks(f) == (o.tracks(f) && f != e) by {
                if o.tracks(f) && f.spec_id() == e.spec_id() {
                    assert(f == e);
                }
            }
            assert forall|f: Entity| s1.tracks(f) implies #[trigger] s1.archetypes@[s1.slot_archetype(f.spec_id() as usize)].row(f.spec_id() as usize)
                == o.archetypes@[o.slot_archetype(f.spec_id() as usize)].row(f.spec_id() as usize) by {
                let x = f.spec_id() as usize;
                assert(x != id);
            }
            // slot indices that still have an entry lie in archetypes other than `p`, or in `p` itself
            assert forall|q: int, i: usize|
                0 <= q < s1.archetypes@.len() && #[trigger] s1.archetypes@[q].rows().contains(i)
                    implies s1.slot(i) is Some && s1.slot_archetype(i) == q by {
                if q == p {
                    assert(o.archetypes@[p as int].rows().contains(i));
                } else {
                    assert(o.archetypes@[q].rows().contains(i));
                }
            }
            assert forall|i: usize| #[trigger] s1.slot(i) is Some implies s1.slot_entity(i).spec_id() == i
                && s1.slot_archetype(i) < s1.archetypes@.len()
                && s1.archetypes@[s1.slot_archetype(i)].rows().contains(i) by {
                assert(o.slot(i) is Some);
            }
            assert(s1@ =~= o@.remove(e));
        }
        if self.archetypes[p].is_empty() {
            let ghost last = self.archetypes@.len() - 1;
            let _ = self.archetypes.swap_remove(p);
            let ghost s2 = *self;
            proof {
                assert forall|i: usize| #[trigger] s1.slot(i) is Some implies s1.slot_archetype(i) != p by {}
            }
            if p < self.archetypes.len() {
                proof {
                    assert(s2.archetypes@[p as int] == s1.archetypes@[last]);
                }
                let indices = self.archetypes[p].indices();
                let mut k: usize = 0;
                while k < indices.len()
                    invariant
                        self.archetypes@ == s2.archetypes@,
                        self.entity_archetype@.len() == s2.entity_archetype@.len(),
                        0 <= k <= indices@.len(),
                        p < self.archetypes@.len(),
                        indices@.to_set() == self.archetypes@[p as int].rows(),
                        forall|i: usize| self.archetypes@[p as int].rows().contains(i) ==> #[trigger] s2.slot(i) is Some,
                        forall|i: usize| #[trigger] self.slot(i) is Some == s2.slot(i) is Some,
                        forall|i: usize| s2.slot(i) is Some ==> #[trigger] self.slot_entity(i) == s2.slot_entity(i),
                        forall|i: usize| !indices@.take(k as int).contains(i) ==> #[trigger] self.slot(i) == s2.slot(i),
                        forall|i: usize| indices@.take(k as int).contains(i) ==> #[trigger] self.slot_archetype(i) == p,
                    decreases indices@.len() - k,
                {
                    let i = indices[k];
                    proof {
                        assert(indices@.to_set().contains(i));
                        assert(indices@.take(k + 1) =~= indices@.take(k as int).push(i));
                        assert(self.archetypes@[p as int].rows().contains(i));
                        assert(s2.slot(i) is Some);
                        assert(self.slot(i) is Some);
                        assert(i < self.entity_archetype@.len());
                    }
                    let ghost before = *self;
                    let (entity, _) = self.entity_archetype[i].unwrap();
                    self.entity_archetype.set(i, Some((entity, ArchetypeId(p))));
                    proof {
                        assert forall|j: usize| #[trigger] self.slot(j) is Some == s2.slot(j) is Some by {
                            assert(before.slot(j) is Some == s2.slot(j) is Some);
                        }
                        assert forall|j: usize| s2.slot(j) is Some implies #[trigger] self.slot_entity(j) == s2.slot_entity(j) by {
                            assert(before.slot_entity(j) == s2.slot_entity(j));
                        }
                        assert forall|j: usize| !indices@.take(k + 1).contains(j) implies #[trigger] self.slot(j) == s2.slot(j) by {
                            assert(indices@.take(k + 1)[k as int] == i);
                            assert(j != i);
                            assert(before.slot(j) == s2.slot(j));
                            if indices@.take(k as int).contains(j) {
                                let w = choose|w: int| 0 <= w < k && #[trigger] indices@.take(k as int)[w] == j;
                                assert(indices@.take(k + 1)[w] == j);
                            }
                        }
                        assert forall|j: usize| indices@.take(k + 1).contains(j) implies #[trigger] self.slot_archetype(j) == p by {
                            if j != i {
                                let w = choose|w: int| 0 <= w < k + 1 && #[trigger] indices@.take(k + 1)[w] == j;
                                assert(indices@.take(k as int)[w] == j);
                                assert(before.slot_archetype(j) == p);
                            }
                        }
                    }
                    k += 1;
                }
                proof {
                    assert(indices@.take(k as int) =~= indices@);
                    Self::lemma_relabelled(s1, *self, p as int, last);
                    assert(self@ =~= s1@);
                }
            } else {
                proof {
                    assert forall|i: usize| #[trigger] self.slot(i) == s1.slot(i) by {}
                    assert(self@ =~= s1@);
                }
            }
        }
        data
    }

    /// The position of the archetype whose types are exactly `type_ids`.
    fn find_archetype(&self, type_ids: &[TypeId]) -> (r: Option<usize>)
        requires
            self.wf(),
        ensures
            r is Some ==> r->0 < self.archetypes@.len() && self.archetypes@[r->0 as int].types().to_set()
                == type_ids@.to_set(),
            r is None ==> forall|q: int|
                0 <= q < self.archetypes@.len() ==> (#[trigger] self.archetypes@[q]).types().to_set()
                    != type_ids@.to_set(),
    {
        let mut q: usize = 0;
        while q < self.archetypes.len()
            invariant
                self.wf(),
                q <= self.archetypes@.len(),
                forall|a: int|
                    0 <= a < q ==> (#[trigger] self.archetypes@[a]).types().to_set() != type_ids@.to_set(),
            decreases self.archetypes@.len() - q,
        {
            if self.archetypes[q].exclusively_contains_types(type_ids) {
                return Some(q);
            }
            q += 1;
        }
        None
    }

    /// Files `data` as the row of `e`, whose slot index has no entry, in the
    /// archetype of exactly their types, which is made if there is none.
    fn place(&mut self, e: Entity, data: Vec<Data<T>>)
        requires
            old(self).wf(),
            old(self).slot(e.spec_id() as usize) is None,
            data@.len() > 0,
            record_types(data@).no_duplicates(),
        ensures
            final(self).wf(),
            final(self)@ == old(self)@.insert(e, records_map(data@)),
    {
        let id = e.id() as usize;
        let ghost all = data@;
        let mut type_ids: Vec<TypeId> = Vec::new();
        let mut k: usize = 0;
        while k < data.len()
            invariant
                k <= data@.len(),
                type_ids@ == record_types(data@).take(k as int),
            decreases data@.len() - k,
        {
            type_ids.push(data[k].type_id());
            proof {
                assert(record_types(data@).take(k + 1) =~= record_types(data@).take(k as int).push(data@[k as int].spec_type_id()));
            }
            k += 1;
        }
        proof {
            assert(record_types(data@).take(k as int) =~= record_types(data@));
            lemma_records_map_dom(all);
        }
        let found = self.find_archetype(type_ids.as_slice());
        let p = match found {
            Some(p) => p,
            None => {
                self.archetypes.push(Archetype::new());
                self.archetypes.len() - 1
            },
        };
        let ghost s0 = *self;
        proof {
            assert(p < s0.archetypes@.len());
            assert(found is Some ==> s0 == *old(self));
            assert(found is None ==> s0.archetypes@ == old(self).archetypes@.push(s0.archetypes@[p as int])
                && p == old(self).archetypes@.len() && s0.archetypes@[p as int].wf()
                && s0.archetypes@[p as int].types().len() == 0
                && s0.archetypes@[p as int].rows() == Set::<usize>::empty());
        }
        while self.entity_archetype.len() <= id
            invariant
                self.archetypes@ == s0.archetypes@,
                s0.entity_archetype@ == old(self).entity_archetype@,
                self.entity_archetype@.len() >= s0.entity_archetype@.len(),
                forall|i: int| 0 <= i < s0.entity_archetype@.len() ==> #[trigger] self.entity_archetype@[i] == s0.entity_archetype@[i],
                forall|i: int| s0.entity_archetype@.len() <= i < self.entity_archetype@.len() ==> #[trigger] self.entity_archetype@[i] is None,
            decreases id + 1 - self.entity_archetype@.len(),
        {
            self.entity_archetype.push(None);
        }
        proof {
            assert forall|i: usize| #[trigger] self.slot(i) == old(self).slot(i) by {}
        }
        let ghost s1 = *self;
        let ghost start = self.archetypes@[p as int];
        proof {
            start.lemma_row(id);
            if start.rows().contains(id) {
                assert(old(self).archetypes@[p as int].rows().contains(id));
            }
            assert(start.row(id) =~= Map::<TypeId, Data<T>>::empty());
            assert(all.take(0) =~= Seq::<Data<T>>::empty());
            assert(record_types(all.take(0)) =~= Seq::<TypeId>::empty());
            assert(start.types().to_set().union(record_types(all.take(0)).to_set()) =~= start.types().to_set());
        }
        let mut data = data;
        let mut k: usize = 0;
        proof {
            vstd::std_specs::vec::axiom_spec_len(&data);
        }
        while data.len() > 0
            invariant
                k <= all.len(),
                p < self.archetypes@.len(),
                data@ == all.skip(k as int),
                data@.len() == all.len() - k,
                all.len() <= usize::MAX,
                self.archetypes@.len() == s1.archetypes@.len(),
                forall|q: int| 0 <= q < self.archetypes@.len() && q != p ==> #[trigger] self.archetypes@[q] == s1.archetypes@[q],
                self.entity_archetype@ == s1.entity_archetype@,
                self.archetypes@[p as int].wf(),
                self.archetypes@[p as int].row(id) == records_map(all.take(k as int)),
                forall|x: usize| x != id ==> #[trigger] self.archetypes@[p as int].row(x) == start.row(x),
                k > 0 ==> self.archetypes@[p as int].rows() == start.rows().insert(id),
                k == 0 ==> self.archetypes@[p as int].rows() == start.rows(),
                self.archetypes@[p as int].types().to_set() == start.types().to_set().union(record_types(all.take(k as int)).to_set()),
            decreases data@.len(),
        {
            let d = data.remove(0);
            proof {
                assert(all.skip(k as int)[0] == all[k as int]);
                assert(all.take(k + 1).drop_last() =~= all.take(k as int));
                assert(all.skip(k as int).remove(0) =~= all.skip(k + 1));
                assert(record_types(all.take(k + 1)) =~= record_types(all.take(k as int)).push(d.spec_type_id()));
            }
            let ghost before = self.archetypes@[p as int];
            self.archetypes[p].insert(id, d);
            proof {
                let t = d.spec_type_id();
                lemma_push_to_set(before.types(), t);
                lemma_push_to_set(record_types(all.take(k as int)), t);
                assert(self.archetypes@[p as int].types().to_set() =~= start.types().to_set().union(record_types(all.take(k + 1)).to_set()));
            }
            k += 1;
        }
        self.entity_archetype.set(id, Some((e, ArchetypeId(p))));
        proof {
            let o = old(self);
            let a = self.archetypes@[p as int];
            let target = record_types(all).to_set();
            assert(all.take(k as int) =~= all);
            assert(type_ids@.to_set() == target);
            assert(a.types().to_set() =~= target) by {
                if found is Some {
                    assert(start.types().to_set() == target);
                } else {
                    assert(start.types().to_set() =~= Set::<TypeId>::empty());
                }
            }
            assert forall|q: int| 0 <= q < self.archetypes@.len() && q != p implies #[trigger] self.archetypes@[q]
                == o.archetypes@[q] by {}
            assert(a.rows().contains(id));
            assert(a.uniform()) by {
                assert forall|x: usize| #[trigger] a.rows().contains(x) implies a.row(x).dom() == a.types().to_set() by {
                    if x != id {
                        assert(start.rows().contains(x));
                        assert(o.archetypes@[p as int] == start);
                    }
                }
            }
            assert(a.types().len() > 0) by {
                assert(record_types(all)[0] == all[0].spec_type_id());
                assert(target.contains(all[0].spec_type_id()));
                assert(a.types().contains(all[0].spec_type_id()));
            }
            assert forall|q: int, r: int|
                0 <= q < self.archetypes@.len() && 0 <= r < self.archetypes@.len() && q != r
                    implies (#[trigger] self.archetypes@[q]).types().to_set() != (
                #[trigger] self.archetypes@[r]).types().to_set() by {
                if q == p {
                    assert(o.archetypes@[r].types().to_set() != target);
                } else if r == p {
                    assert(o.archetypes@[q].types().to_set() != target);
                }
            }
            assert forall|q: int, i: usize|
                0 <= q < self.archetypes@.len() && #[trigger] self.archetypes@[q].rows().contains(i)
                    implies self.slot(i) is Some && self.slot_archetype(i) == q by {
                if i != id {
                    if q == p {
                        assert(start.rows().contains(i));
                        assert(o.archetypes@[p as int].rows().contains(i));
                    } else {
                        assert(o.archetypes@[q].rows().contains(i));
                    }
                    assert(self.slot(i) == o.slot(i));
                } else if q != p {
                    assert(o.archetypes@[q].rows().contains(i));
                }
            }
            assert forall|i: usize| #[trigger] self.slot(i) is Some implies self.slot_entity(i).spec_id() == i
                && self.slot_archetype(i) < self.archetypes@.len()
                && self.archetypes@[self.slot_archetype(i)].rows().contains(i) by {
                if i != id {
                    assert(self.slot(i) == o.slot(i));
                    let q = o.slot_archetype(i);
                    assert(o.archetypes@[q].rows().contains(i));
                    if q == p {
                        assert(start.rows().contains(i));
                    }
                }
            }
            assert(self.wf());
            assert forall|f: Entity| #[trigger] self.tracks(f) == (o.tracks(f) || f == e) by {
                if f.spec_id() as usize != id {
                    assert(self.slot(f.spec_id() as usize) == o.slot(f.spec_id() as usize));
                }
            }
            assert forall|f: Entity| o.tracks(f) implies #[trigger] self.archetypes@[self.slot_archetype(f.spec_id() as usize)].row(f.spec_id() as usize)
                == o.archetypes@[o.slot_archetype(f.spec_id() as usize)].row(f.spec_id() as usize) by {
                let x = f.spec_id() as usize;
                assert(x != id);
                assert(self.slot(x) == o.slot(x));
                let q = o.slot_archetype(x);
                if q == p {
                    assert(o.archetypes@[p as int] == start);
                }
            }
            assert(self@ =~= o@.insert(e, records_map(all)));
        }
    }

    /// Gives `entity` the record `data`, replacing its record of the same
    /// type. All of the entity's records move to the archetype of its new set
    /// of types. A stale `entity`, whose slot index has components under
    /// another generation, is refused: nothing changes.
    pub fn insert_component(&mut self, entity: Entity, data: Data<T>)
        requires
            old(self).wf(),
        ensures
            final(self).wf(),
            old(self).blocked(entity) ==> final(self)@ == old(self)@,
            !old(self).blocked(entity) ==> final(self)@ == old(self)@.insert(
                entity,
                old(self).components(entity).insert(data.spec_type_id(), data),
            ),
    {
        let id = entity.id() as usize;
        let mut records: Vec<Data<T>> = match self.slot_of(id) {
            Some((holder, _)) => {
                if holder != entity {
                    proof {
                        assert(old(self)@.contains_key(holder));
                    }
                    return;
                }
                self.take_row(entity)
            },
            None => {
                proof {
                    assert(!old(self)@.contains_key(entity));
                }
                Vec::new()
            },
        };
        proof {
            if !old(self)@.contains_key(entity) {
                assert(records@ =~= Seq::<Data<T>>::empty());
                assert(records_map(records@) =~= Map::<TypeId, Data<T>>::empty());
                assert(record_types(records@) =~= Seq::<TypeId>::empty());
            }
            assert(records_map(records@) == old(self).components(entity));
            assert(!old(self).blocked(entity)) by {
                if old(self).blocked(entity) {
                    let f = choose|f: Entity| #[trigger] old(self)@.contains_key(f) && f.spec_id() == entity.spec_id() && f != entity;
                    assert(old(self).tracks(f));
                }
            }
        }
        let type_id = data.type_id();
        let mut j: usize = 0;
        let mut found = false;
        while j < records.len() && !found
            invariant
                j <= records@.len(),
                found ==> j < records@.len() && records@[j as int].spec_type_id() == type_id,
                forall|k: int| 0 <= k < j ==> (#[trigger] records@[k]).spec_type_id() != type_id,
            decreases records@.len() - j + (if found { 0int } else { 1int }),
        {
            if records[j].is(type_id) {
                found = true;
            } else {
                j += 1;
            }
        }
        let ghost before = records@;
        if found {
            records.set(j, data);
            proof {
                lemma_records_map_update(before, j as int, data);
            }
        } else {
            records.push(data);
            proof {
                assert(records@.drop_last() =~= before);
                assert(record_types(records@) =~= record_types(before).push(type_id));
                assert forall|k: int| 0 <= k < before.len() implies record_types(before)[k] != type_id by {
                    assert(before[k].spec_type_id() != type_id);
                }
            }
        }
        self.place(entity, records);
    }

    /// Takes the record of type `type_id` away from `entity` and returns it;
    /// the entity's other records move to the archetype of the types that
    /// are left, and an entity left with none is no longer tracked. Nothing
    /// changes if the entity has no such record.
    pub fn remove_component(&mut self, entity: Entity, type_id: TypeId) -> (r: Option<Data<T>>)
        requires
            old(self).wf(),
        ensures
            final(self).wf(),
            !old(self).components(entity).contains_key(type_id) ==> r is None && final(self)@
                == old(self)@,
            old(self).components(entity).contains_key(type_id) ==> r == Some(
                old(self).components(entity)[type_id],
            ),
            old(self).components(entity).contains_key(type_id) && old(self).components(
                entity,
            ).remove(type_id).dom() == Set::<TypeId>::empty() ==> final(self)@ == old(
                self,
            )@.remove(entity),
            old(self).components(entity).contains_key(type_id) && old(self).components(
                entity,
            ).remove(type_id).dom() != Set::<TypeId>::empty() ==> final(self)@ == old(
                self,
            )@.insert(entity, old(self).components(entity).remove(type_id)),
    {
        if !self.has_component(entity, type_id) {
            return None;
        }
        let mut records = self.take_row(entity);
        let ghost all = records@;
        let mut j: usize = 0;
        let mut found = false;
        while j < records.len() && !found
            invariant
                j <= records@.len(),
                records@ == all,
                found ==> j < records@.len() && records@[j as int].spec_type_id() == type_id,
                forall|k: int| 0 <= k < j ==> (#[trigger] records@[k]).spec_type_id() != type_id,
            decreases records@.len() - j + (if found { 0int } else { 1int }),
        {
            if records[j].is(type_id) {
                found = true;
            } else {
                j += 1;
            }
        }
        proof {
            if !found {
                // the entity has a record of this type, so the search finds it
                lemma_records_map_dom(all);
                assert(record_types(all).to_set().contains(type_id));
                let k = choose|k: int| 0 <= k < all.len() && record_types(all)[k] == type_id;
                assert(all[k].spec_type_id() == type_id);
                assert(false);
            }
            lemma_records_map_remove(all, j as int);
        }
        let removed = records.remove(j);
        if records.len() > 0 {
            proof {
                lemma_records_map_dom(records@);
                assert(record_types(records@)[0] == records@[0].spec_type_id());
                assert(records_map(records@).dom().contains(records@[0].spec_type_id()));
            }
            self.place(entity, records);
        } else {
            proof {
                assert(records_map(records@) =~= Map::<TypeId, Data<T>>::empty());
            }
        }
        Some(removed)
    }

    /// Takes every record of `entity` out of the storage and returns them in
    /// column order; nothing if the entity is not tracked.
    pub fn remove_entity(&mut self, entity: Entity) -> (r: Option<Vec<Data<T>>>)
        requires
            old(self).wf(),
        ensures
            final(self).wf(),
            final(self)@ == old(self)@.remove(entity),
            old(self)@.contains_key(entity) ==> r is Some && records_map(r->0@) == old(self)@[entity]
                && record_types(r->0@).no_duplicates()
                && r->0@.len() == old(self)@[entity].dom().len()
                && record_types(r->0@) == old(self).archetype_list()[old(self).archetype_of(entity)].types(),
            !old(self)@.contains_key(entity) ==> r is None && *final(self) == *old(self),
    {
        match self.slot_of(entity.id() as usize) {
            Some((holder, _)) => {
                if holder == entity {
                    let r = self.take_row(entity);
                    proof {
                        lemma_records_map_dom(r@);
                        record_types(r@).unique_seq_to_set();
                    }
                    Some(r)
                } else {
                    proof {
                        assert(self@ =~= old(self)@.remove(entity));
                    }
                    None
                }
            },
            None => {
                proof {
                    assert(self@ =~= old(self)@.remove(entity));
                }
                None
            },
        }
    }

    /// The record of type `type_id` of `entity`, if it has one.
    pub fn get_data(&self, entity: Entity, type_id: TypeId) -> (r: Option<&Data<T>>)
        requires
            self.wf(),
        ensures
            self.components(entity).contains_key(type_id) ==> r == Some(
                &self.components(entity)[type_id],
            ),
            !self.components(entity).contains_key(type_id) ==> r is None,
            r is Some ==> r->0.spec_type_id() == type_id,
    {
        proof {
            self.lemma_archetypes();
        }
        let id = entity.id() as usize;
        match self.slot_of(id) {
            Some((holder, archetype_id)) => {
                if holder == entity {
                    self.archetypes[archetype_id.0].get(id, type_id)
                } else {
                    None
                }
            },
            None => None,
        }
    }

    /// The component of type `type_id` of `entity`, if it has one.
    pub fn get_component(&self, entity: Entity, type_id: TypeId) -> (r: Option<&T>)
        requires
            self.wf(),
        ensures
            self.components(entity).contains_key(type_id) ==> r == Some(
                &self.components(entity)[type_id].spec_data(),
            ),
            !self.components(entity).contains_key(type_id) ==> r is None,
    {
        match self.get_data(entity, type_id) {
            Some(data) => Some(data.get_data()),
            None => None,
        }
    }

    /// Whether `entity` has a component of type `type_id`.
    pub fn has_component(&self, entity: Entity, type_id: TypeId) -> (r: bool)
        requires
            self.wf(),
        ensures
            r == self.components(entity).contains_key(type_id),
    {
        let id = entity.id() as usize;
        match self.slot_of(id) {
            Some((holder, archetype_id)) => {
                if holder == entity {
                    self.archetypes[archetype_id.0].has_component(id, type_id)
                } else {
                    false
                }
            },
            None => false,
        }
    }

    /// The tracked entities, by slot index.
    pub fn entity_iter(&self) -> (r: Vec<Entity>)
        requires
            self.wf(),
        ensures
            forall|e: Entity| r@.contains(e) <==> self@.contains_key(e),
            r@.no_duplicates(),
    {
        let mut r: Vec<Entity> = Vec::new();
        let mut i: usize = 0;
        while i < self.entity_archetype.len()
            invariant
                self.wf(),
                i <= self.entity_archetype@.len(),
                forall|e: Entity| r@.contains(e) <==> (self@.contains_key(e) && (e.spec_id() as usize) < i),
                forall|k: int| 0 <= k < r@.len() ==> ((#[trigger] r@[k]).spec_id() as usize) < i,
                r@.no_duplicates(),
            decreases self.entity_archetype@.len() - i,
        {
            let ghost before = r@;
            match self.entity_archetype[i] {
                Some((entity, _)) => {
                    proof {
                        assert(self.slot(i) is Some);
                        assert(self.slot_entity(i).spec_id() == i);
                        assert(self@.contains_key(entity));
                        assert forall|e: Entity| self@.contains_key(e) && e.spec_id() as usize == i implies e == entity by {}
                        assert forall|k: int| 0 <= k < before.len() implies before[k] != entity by {
                            assert((before[k].spec_id() as usize) < i);
                        }
                    }
                    r.push(entity);
                    proof {
                        assert forall|e: Entity| r@.contains(e) <==> (self@.contains_key(e) && (e.spec_id() as usize) < i + 1) by {
                            assert(entity.spec_id() as usize == i);
                            if r@.contains(e) && e != entity {
                                let k = choose|k: int| 0 <= k < r@.len() && r@[k] == e;
                                assert(before[k] == e);
                                assert(before.contains(e));
                            }
                            if self@.contains_key(e) && (e.spec_id() as usize) < i + 1 && (e.spec_id() as usize) < i {
                                assert(before.contains(e));
                                let k = choose|k: int| 0 <= k < before.len() && before[k] == e;
                                assert(r@[k] == e);
                            }
                            if e == entity {
                                assert(r@[before.len() as int] == e);
                            }
                        }
                    }
                },
                None => {
                    proof {
                        assert forall|e: Entity| r@.contains(e) <==> (self@.contains_key(e) && (e.spec_id() as usize) < i + 1) by {
                            if self@.contains_key(e) && e.spec_id() as usize == i {
                                assert(self.slot(i) is Some);
                            }
                        }
                    }
                },
            }
            i += 1;
        }
        proof {
            assert forall|e: Entity| self@.contains_key(e) implies (e.spec_id() as usize) < i by {
                assert(self.slot(e.spec_id() as usize) is Some);
            }
        }
        r
    }

    /// The record of type `type_id` of `entity`, for writing, if it has one.
    /// The storage stays well formed as long as the record keeps its tag.
    pub fn get_data_mut(&mut self, entity: Entity, type_id: TypeId) -> (r: Option<&mut Data<T>>)
        requires
            old(self).wf(),
        ensures
            old(self).components(entity).contains_key(type_id) ==> r is Some && *r->0 == old(
                self,
            ).components(entity)[type_id],
            old(self).components(entity).contains_key(type_id) && final(r->0).spec_type_id() == type_id
                ==> final(self).wf() && final(self)@ == old(self)@.insert(
                entity,
                old(self).components(entity).insert(type_id, *final(r->0)),
            ),
            !old(self).components(entity).contains_key(type_id) ==> r is None && *final(self)
                == *old(self),
    {
        if !self.has_component(entity, type_id) {
            return None;
        }
        let id = entity.id() as usize;
        let (_, archetype_id) = self.slot_of(id).unwrap();
        let p = archetype_id.0;
        proof {
            Self::lemma_record_replaced(*old(self), entity, type_id);
            old(self).archetypes@[p as int].lemma_row(id);
        }
        self.archetypes[p].get_mut(id, type_id)
    }

    /// The component of type `type_id` of `entity`, for writing, if it has
    /// one. What is written through the handle is what `get_component`
    /// reads afterwards; every other component stays as it was.
    pub fn get_component_mut(&mut self, entity: Entity, type_id: TypeId) -> (r: Option<&mut T>)
        requires
            old(self).wf(),
        ensures
            final(self).wf(),
            old(self).components(entity).contains_key(type_id) ==> r is Some && *r->0 == old(
                self,
            ).components(entity)[type_id].spec_data() && final(self)@ == old(self)@.insert(
                entity,
                old(self).components(entity).insert(
                    type_id,
                    old(self).components(entity)[type_id].with_data(*final(r->0)),
                ),
            ),
            old(self).components(entity).contains_key(type_id) ==> final(self).components(
                entity,
            ).contains_key(type_id) && final(self).components(entity)[type_id].spec_data()
                == *final(r->0) && final(self).components(entity)[type_id].spec_type_id()
                == type_id,
            !old(self).components(entity).contains_key(type_id) ==> r is None && *final(self)
                == *old(self),
    {
        proof {
            old(self).lemma_archetypes();
        }
        match self.get_data_mut(entity, type_id) {
            Some(data) => Some(data.get_data_mut()),
            None => None,
        }
    }

    /// Whether the archetype of `entity` has a column for `type_id`; the same
    /// as whether the entity has such a component, since an archetype's
    /// types are those of each of its entities.
    pub fn has_component_by_type_id(&self, entity: Entity, type_id: TypeId) -> (r: bool)
        requires
            self.wf(),
        ensures
            r == self.components(entity).contains_key(type_id),
    {
        proof {
            self.lemma_archetypes();
        }
        let id = entity.id() as usize;
        match self.slot_of(id) {
            Some((holder, archetype_id)) => {
                if holder == entity {
                    self.archetypes[archetype_id.0].has_component_by_type_id(type_id)
                } else {
                    false
                }
            },
            None => false,
        }
    }
}

} // verus!
