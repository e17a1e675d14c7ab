use vstd::prelude::*;

verus! {

/// A value together with a flag that says whether it is up to date.
pub struct Cached<T> {
    inner: T,
    valid: bool,
}

impl<T> Cached<T> {
    /// The cached value, whether or not it is up to date.
    pub closed spec fn value(&self) -> T {
        self.inner
    }

    /// Whether the cached value is up to date.
    pub closed spec fn valid(&self) -> bool {
        self.valid
    }

    /// Wraps a value that is not yet up to date.
    pub fn new(inner: T) -> (r: Cached<T>)
        ensures
            r.value() == inner,
            !r.valid(),
    {
        Cached { inner, valid: false }
    }

    /// The value; only an up-to-date value may be read.
    pub fn get(&self) -> (r: &T)
        requires
            self.valid(),
        ensures
            *r == self.value(),
    {
        &self.inner
    }

    pub fn is_valid(&self) -> (r: bool)
        ensures
            r == self.valid(),
    {
        self.valid
    }

    /// The value if it is up to date.
    pub fn get_if_valid(&self) -> (r: Option<&T>)
        ensures
            r is Some <==> self.valid(),
            r matches Some(v) ==> *v == self.value(),
    {
        if self.valid {
            Some(&self.inner)
        } else {
            None
        }
    }

    /// Marks the value as out of date; the value itself is kept.
    pub fn invalidate(&mut self)
        ensures
            !final(self).valid(),
            final(self).value() == old(self).value(),
    {
        self.valid = false;
    }

    /// Marks the value as up to date.
    pub fn mark_valid(&mut self)
        ensures
            final(self).valid(),
            final(self).value() == old(self).value(),
    {
        self.valid = true;
    }

    /// Recomputes the value from the old one with `f`; the result is up to date.
    pub fn update<F: FnOnce(&T) -> T>(&mut self, f: F)
        requires
            call_requires(f, (&old(self).value(),)),
        ensures
            final(self).valid(),
            call_ensures(f, (&old(self).value(),), final(self).value()),
    {
        let updated = f(&self.inner);
        self.inner = updated;
        self.valid = true;
    }
}

} // verus!
