//! A cached value together with the getter that refreshes it and the function that
//! rates it.
use vstd::prelude::*;

verus! {

/// How a value is rated; it carries no detail.
pub struct Status {}

/// Why a getter failed.
pub struct GetterError {}

/// The last value a getter delivered, if any, with the getter and the rating function.
#[verifier::reject_recursive_types(T)]
pub struct ValueV1<G: Fn() -> Result<T, GetterError>, S: Fn(&T) -> Status, T> {
    pub value: Option<T>,
    pub getter: G,
    pub status: S,
}

impl<G: Fn() -> Result<T, GetterError>, S: Fn(&T) -> Status, T> ValueV1<G, S, T> {
    /// Asks the getter for a new value. On success the value replaces the cached one;
    /// on failure the cached value stays and the getter's error is returned.
    pub fn update(&mut self) -> (r: Result<(), GetterError>)
        requires
            old(self).getter.requires(()),
        ensures
            final(self).getter == old(self).getter,
            final(self).status == old(self).status,
            r is Ok ==> exists|v: T| old(self).getter.ensures((), Ok::<T, GetterError>(v)) && final(self).value == Some(v),
            r matches Err(e) ==> old(self).getter.ensures((), Err::<T, GetterError>(e)) && final(self).value == old(self).value,
    {
        match (self.getter)() {
            Ok(v) => {
                self.value = Some(v);
                Ok(())
            },
            Err(e) => Err(e),
        }
    }

    /// The cached value, if any.
    pub fn value(&self) -> (r: Option<&T>)
        ensures
            self.value is None ==> r is None,
            self.value matches Some(v) ==> r == Some(&v),
    {
        match &self.value {
            Some(v) => Some(v),
            None => None,
        }
    }

    /// The rating of the cached value, if there is one.
    pub fn status(&self) -> (r: Option<Status>)
        requires
            forall|x: &T| #[trigger] self.status.requires((x,)),
        ensures
            self.value is None ==> r is None,
            self.value matches Some(v) ==> r matches Some(s) && self.status.ensures((&v,), s),
    {
        match self.value() {
            Some(v) => Some((self.status)(v)),
            None => None,
        }
    }
}

} // verus!
