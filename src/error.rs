use vstd::prelude::*;

verus! {

/// The error of the application layer: an optional description of what
/// went wrong.
pub struct KError {
    pub desc: Option<String>,
}

/// A result whose error is a [`KError`].
pub type KResult<T> = Result<T, KError>;

impl KError {
    /// An error without a description.
    pub fn new() -> (r: KError)
        ensures
            r.desc is None,
    {
        KError { desc: None }
    }

    /// An error described by `desc`.
    pub fn with_desc(desc: &str) -> (r: KError)
        ensures
            r.desc is Some && r.desc->0@ == desc@,
    {
        KError { desc: Some(desc.to_owned()) }
    }

    /// Fails with an error described by `desc`.
    pub fn bail<T>(desc: &str) -> (r: KResult<T>)
        ensures
            r is Err && r->Err_0.desc is Some && r->Err_0.desc->0@ == desc@,
    {
        Err(KError::with_desc(desc))
    }

    /// Succeeds when `cond` holds, and fails with an error described by
    /// `desc` otherwise.
    pub fn ensure(cond: bool, desc: &str) -> (r: KResult<()>)
        ensures
            cond ==> r is Ok,
            !cond ==> r is Err && r->Err_0.desc is Some && r->Err_0.desc->0@ == desc@,
    {
        if cond {
            Ok(())
        } else {
            KError::bail(desc)
        }
    }
}

impl PartialEq for KError {
    /// Two errors are equal when their descriptions are.
    fn eq(&self, other: &KError) -> (r: bool) {
        match (&self.desc, &other.desc) {
            (Some(a), Some(b)) => a.eq(b),
            (None, None) => true,
            _ => false,
        }
    }
}

impl vstd::std_specs::cmp::PartialEqSpecImpl for KError {
    open spec fn obeys_eq_spec() -> bool {
        true
    }

    open spec fn eq_spec(&self, other: &KError) -> bool {
        match (self.desc, other.desc) {
            (Some(a), Some(b)) => a@ == b@,
            (None, None) => true,
            _ => false,
        }
    }
}

} // verus!
