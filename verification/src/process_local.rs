//! Process local storage.
//!
//! A process local slot holds a value that is initialized lazily, on the
//! first access, by an initializer; `set` initializes it directly with the
//! given value and never runs the initializer. Each process owns its slot,
//! and values are never destructed.
use vstd::prelude::*;

verus! {

/// A lazily initialized slot.
pub struct LazyKeyInner<T> {
    inner: Option<T>,
}

impl<T> LazyKeyInner<T> {
    /// The value held, if initialized.
    pub closed spec fn value(&self) -> Option<T> {
        self.inner
    }

    /// An uninitialized slot.
    pub fn new() -> (r: LazyKeyInner<T>)
        ensures
            r.value() is None,
    {
        LazyKeyInner { inner: None }
    }

    /// The value held, if initialized.
    pub fn get(&self) -> (r: Option<&T>)
        ensures
            match r {
                Some(v) => self.value() == Some(*v),
                None => self.value() is None,
            },
    {
        match &self.inner {
            Some(v) => Some(v),
            None => None,
        }
    }

    /// Runs `init` and stores its value, replacing any earlier one.
    pub fn initialize<F: FnOnce() -> T>(&mut self, init: F) -> (r: &T)
        requires
            call_requires(init, ()),
        ensures
            final(self).value() matches Some(v) && v == *r && call_ensures(init, (), v),
    {
        let value = init();
        self.inner = Some(value);
        match &self.inner {
            Some(v) => v,
            None => vstd::pervasive::unreached(),
        }
    }

    /// Takes the value out, leaving the slot uninitialized.
    pub fn take(&mut self) -> (r: Option<T>)
        ensures
            r == old(self).value(),
            final(self).value() is None,
    {
        let mut v = None;
        std::mem::swap(&mut v, &mut self.inner);
        v
    }
}

/// A slot initialized on first access by the initializer passed to `get`.
pub struct Key<T> {
    inner: LazyKeyInner<T>,
}

impl<T> Key<T> {
    /// The value held, if initialized.
    pub closed spec fn value(&self) -> Option<T> {
        self.inner.value()
    }

    /// An uninitialized key.
    pub fn new() -> (r: Key<T>)
        ensures
            r.value() is None,
    {
        Key { inner: LazyKeyInner::new() }
    }

    /// The value, after initializing it with `init` if it was not yet.
    pub fn get<F: FnOnce() -> T>(&mut self, init: F) -> (r: Option<&T>)
        requires
            old(self).value() is None ==> call_requires(init, ()),
        ensures
            r matches Some(v) && final(self).value() == Some(*v),
            old(self).value() is Some ==> final(self).value() == old(self).value(),
            old(self).value() is None ==> call_ensures(init, (), final(self).value()->0),
    {
        if self.inner.get().is_none() {
            self.inner.initialize(init);
        }
        self.inner.get()
    }
}

/// A process local value, initialized lazily from the initializer passed to
/// each access.
pub struct ProcessLocal<T> {
    key: Key<T>,
}

impl<T> ProcessLocal<T> {
    /// The value held, if initialized.
    pub closed spec fn value(&self) -> Option<T> {
        self.key.value()
    }

    /// The value the slot holds after an access that initializes it with
    /// `init` where it was not yet initialized.
    pub open spec fn accessed<F: FnOnce() -> T>(before: Option<T>, init: F, after: T) -> bool {
        match before {
            Some(v) => after == v,
            None => call_ensures(init, (), after),
        }
    }

    /// An uninitialized process local.
    pub fn new() -> (r: ProcessLocal<T>)
        ensures
            r.value() is None,
    {
        ProcessLocal { key: Key::new() }
    }

    /// Applies `f` to the value, initializing it first with `init` if needed.
    pub fn with<F: FnOnce() -> T, G: FnOnce(&T) -> R, R>(&mut self, init: F, f: G) -> (r: R)
        requires
            old(self).value() is None ==> call_requires(init, ()),
            forall|v: T| call_requires(f, (&v,)),
        ensures
            final(self).value() matches Some(v) && Self::accessed(old(self).value(), init, v)
                && call_ensures(f, (&v,), r),
    {
        match self.key.get(init) {
            Some(v) => f(v),
            None => vstd::pervasive::unreached(),
        }
    }

    /// Sets or initializes the value. The initializer is not run: where the
    /// slot was not initialized, `value` initializes it.
    pub fn set(&mut self, value: T)
        ensures
            final(self).value() == Some(value),
    {
        let mut inner = LazyKeyInner::new();
        std::mem::swap(&mut inner, &mut self.key.inner);
        let _old = inner.take();
        self.key.inner.inner = Some(value);
    }

    /// Returns a copy of the value, initializing it first with `init` if
    /// needed.
    pub fn get<F: FnOnce() -> T>(&mut self, init: F) -> (r: T) where T: Copy
        requires
            old(self).value() is None ==> call_requires(init, ()),
        ensures
            final(self).value() == Some(r),
            Self::accessed(old(self).value(), init, r),
    {
        match self.key.get(init) {
            Some(v) => *v,
            None => vstd::pervasive::unreached(),
        }
    }

    /// Takes the value, leaving `Default::default()` in its place; the value
    /// is first initialized with `init` if needed.
    pub fn take<F: FnOnce() -> T>(&mut self, init: F) -> (r: T) where T: Default
        requires
            old(self).value() is None ==> call_requires(init, ()),
        ensures
            Self::accessed(old(self).value(), init, r),
            final(self).value() matches Some(d) && call_ensures(T::default, (), d),
    {
        let d = T::default();
        self.replace(init, d)
    }

    /// Replaces the value, returning the old one; the value is first
    /// initialized with `init` if needed.
    pub fn replace<F: FnOnce() -> T>(&mut self, init: F, value: T) -> (r: T)
        requires
            old(self).value() is None ==> call_requires(init, ()),
        ensures
            Self::accessed(old(self).value(), init, r),
            final(self).value() == Some(value),
    {
        let mut inner = LazyKeyInner::new();
        std::mem::swap(&mut inner, &mut self.key.inner);
        let old = match inner.take() {
            Some(v) => v,
            None => init(),
        };
        self.key.inner.inner = Some(value);
        old
    }

    /// Applies `f` to a shared borrow of the value, initializing it first
    /// with `init` if needed.
    pub fn with_borrow<F: FnOnce() -> T, G: FnOnce(&T) -> R, R>(&mut self, init: F, f: G) -> (r: R)
        requires
            old(self).value() is None ==> call_requires(init, ()),
            forall|v: T| call_requires(f, (&v,)),
        ensures
            final(self).value() matches Some(v) && Self::accessed(old(self).value(), init, v)
                && call_ensures(f, (&v,), r),
    {
        self.with(init, f)
    }

    /// Applies `f` to the value, initializing it first with `init` if needed,
    /// and stores the value that `f` hands back in its place.
    pub fn with_borrow_mut<F: FnOnce() -> T, G: FnOnce(T) -> (T, R), R>(
        &mut self,
        init: F,
        f: G,
    ) -> (r: R)
        requires
            old(self).value() is None ==> call_requires(init, ()),
            forall|v: T| call_requires(f, (v,)),
        ensures
            exists|v: T, w: T|
                Self::accessed(old(self).value(), init, v) && final(self).value() == Some(w)
                    && call_ensures(f, (v,), (w, r)),
    {
        let mut inner = LazyKeyInner::new();
        std::mem::swap(&mut inner, &mut self.key.inner);
        let v = match inner.take() {
            Some(v) => v,
            None => init(),
        };
        let ghost v0 = v;
        let (w, r) = f(v);
        self.key.inner.inner = Some(w);
        assert(Self::accessed(old(self).value(), init, v0) && self.value() == Some(w)
            && call_ensures(f, (v0,), (w, r)));
        r
    }
}

/// A process local is initialized once: an access to a slot that holds a
/// value reads that value, whatever initializer it is given.
pub proof fn law_initialized_once<T, F: FnOnce() -> T>(held: T, init: F, read: T)
    requires
        ProcessLocal::<T>::accessed(Some(held), init, read),
    ensures
        read == held,
{
}

/// A value set is what a later access reads: the initializer is not run.
pub proof fn law_set_then_get<T, F: FnOnce() -> T>(value: T, init: F)
    ensures
        ProcessLocal::<T>::accessed(Some(value), init, value),
{
}

} // verus!
