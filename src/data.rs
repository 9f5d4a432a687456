use std::any::TypeId;
use vstd::prelude::*;

verus! {

/// One record of the store: a payload of type `T` tagged with the identity
/// and the name of the component type that it holds.
///
/// The tag is what the store reasons about. A lookup by type first checks the
/// tag and hands out the payload only when the tag matches, so that a payload
/// is only ever reinterpreted as the type it was tagged with.
pub struct Data<T> {
    type_id: TypeId,
    name: String,
    data: T,
}

impl<T> Data<T> {
    pub closed spec fn spec_type_id(&self) -> TypeId {
        self.type_id
    }

    pub closed spec fn spec_name(&self) -> Seq<char> {
        self.name@
    }

    pub closed spec fn spec_data(&self) -> T {
        self.data
    }

    /// This record with its payload replaced by `data`.
    pub closed spec fn with_data(&self, data: T) -> Data<T> {
        Data { type_id: self.type_id, name: self.name, data }
    }

    /// A record with its payload replaced keeps its tag and name and holds
    /// the new payload.
    pub broadcast proof fn lemma_with_data(&self, data: T)
        ensures
            #[trigger] self.with_data(data).spec_data() == data,
            self.with_data(data).spec_type_id() == self.spec_type_id(),
            self.with_data(data).spec_name() == self.spec_name(),
    {
    }

    /// A record that tags `data` with `type_id`.
    pub fn new(type_id: TypeId, name: String, data: T) -> (r: Data<T>)
        ensures
            r.spec_type_id() == type_id,
            r.spec_name() == name@,
            r.spec_data() == data,
    {
        Data { type_id, name, data }
    }

    pub fn type_id(&self) -> (r: TypeId)
        ensures
            r == self.spec_type_id(),
    {
        self.type_id
    }

    /// The name of the tagged type, for diagnostics only.
    pub fn name(&self) -> (r: &str)
        ensures
            r@ == self.spec_name(),
    {
        self.name.as_str()
    }

    /// Whether the record is tagged with `type_id`.
    pub fn is(&self, type_id: TypeId) -> (r: bool)
        ensures
            r == (self.spec_type_id() == type_id),
    {
        self.type_id == type_id
    }

    pub fn get_data(&self) -> (r: &T)
        ensures
            *r == self.spec_data(),
    {
        &self.data
    }

    pub fn get_data_mut(&mut self) -> (r: &mut T)
        ensures
            *r == old(self).spec_data(),
            *final(self) == old(self).with_data(*final(r)),
            final(self).spec_data() == *final(r),
            final(self).spec_type_id() == old(self).spec_type_id(),
            final(self).spec_name() == old(self).spec_name(),
    {
        &mut self.data
    }

    /// Replaces the payload; the tag stays as it is.
    pub fn set_data(&mut self, data: T)
        ensures
            *final(self) == old(self).with_data(data),
            final(self).spec_data() == data,
            final(self).spec_type_id() == old(self).spec_type_id(),
            final(self).spec_name() == old(self).spec_name(),
    {
        self.data = data;
    }

    pub fn into_data(self) -> (r: T)
        ensures
            r == self.spec_data(),
    {
        self.data
    }

    /// The payload, if the record is tagged with `type_id`; nothing otherwise.
    pub fn downcast_ref(&self, type_id: TypeId) -> (r: Option<&T>)
        ensures
            self.spec_type_id() == type_id ==> r == Some(&self.spec_data()),
            self.spec_type_id() != type_id ==> r is None,
    {
        if self.type_id == type_id {
            Some(&self.data)
        } else {
            None
        }
    }

    /// The payload for writing, if the record is tagged with `type_id`;
    /// nothing otherwise.
    pub fn downcast_mut(&mut self, type_id: TypeId) -> (r: Option<&mut T>)
        ensures
            old(self).spec_type_id() == type_id ==> r is Some && *r->0 == old(self).spec_data()
                && final(self).spec_data() == *final(r->0),
            old(self).spec_type_id() != type_id ==> r is None && *final(self) == *old(self),
            final(self).spec_type_id() == old(self).spec_type_id(),
            final(self).spec_name() == old(self).spec_name(),
    {
        if self.type_id == type_id {
            Some(&mut self.data)
        } else {
            None
        }
    }
}

} // verus!
