//! A memo cell that notices when its own computation asks for itself.

use std::rc::Rc;

use vstd::prelude::*;

verus! {

/// State of a [`RecursiveCache`].
pub enum CacheState<T> {
    /// No value; the next request computes one.
    Outdated,
    /// A computation is running; a request now is a cycle.
    Computing,
    /// The value computed last.
    Valid(Rc<T>),
}

/// A cache whose computation may recurse into other caches; a request that
/// reaches a cache whose computation is still running is reported as a cycle.
pub struct RecursiveCache<T> {
    state: CacheState<T>,
}

impl<T> RecursiveCache<T> {
    /// The current state.
    pub closed spec fn state(&self) -> CacheState<T> {
        self.state
    }

    pub fn new() -> (c: Self)
        ensures
            c.state() is Outdated,
    {
        RecursiveCache { state: CacheState::Outdated }
    }

    /// Forgets the cached value.
    pub fn reset(&mut self)
        ensures
            final(self).state() is Outdated,
    {
        self.state = CacheState::Outdated;
    }

    /// Opens a request. A valid value is handed out (`Some(Ok(..))`), a
    /// running computation is reported as a cycle (`Some(Err(()))`); both
    /// leave the state as it was. An outdated cache answers `None` and is
    /// marked as computing.
    pub fn start(&mut self) -> (r: Option<Result<Rc<T>, ()>>)
        ensures
            match old(self).state() {
                CacheState::Valid(v) => r == Some(Ok::<Rc<T>, ()>(v)) && final(self).state()
                    == old(self).state(),
                CacheState::Computing => r == Some(Err::<Rc<T>, ()>(())) && final(self).state()
                    is Computing,
                CacheState::Outdated => r is None && final(self).state() is Computing,
            },
    {
        match &self.state {
            CacheState::Valid(v) => {
                return Some(Ok(v.clone()));
            },
            CacheState::Computing => {
                return Some(Err(()));
            },
            CacheState::Outdated => {},
        }
        self.state = CacheState::Computing;
        None
    }

    /// Closes a request opened by [`RecursiveCache::start`]: a computed value
    /// becomes the cached one and is handed back; a failed computation
    /// (`None`) leaves the cache outdated.
    pub fn finish(&mut self, value: Option<T>) -> (r: Option<Rc<T>>)
        ensures
            match value {
                Some(v) => r == Some(Rc::new(v)) && final(self).state() == CacheState::Valid(
                    Rc::new(v),
                ),
                None => r is None && final(self).state() is Outdated,
            },
    {
        match value {
            Some(v) => {
                let value = Rc::new(v);
                self.state = CacheState::Valid(value.clone());
                Some(value)
            },
            None => {
                self.state = CacheState::Outdated;
                None
            },
        }
    }

    /// Returns the cached value, or computes it with `compute` when the cache
    /// is outdated. A request made while the computation is still running is
    /// answered with `cycle_error()`. A failed computation leaves the cache
    /// outdated.
    pub fn get_or_compute<E, F, G>(&mut self, compute: F, cycle_error: G) -> (r: Result<
        Rc<T>,
        E,
    >) where F: FnOnce() -> Result<T, E>, G: FnOnce() -> E
        requires
            old(self).state() is Outdated ==> compute.requires(()),
            old(self).state() is Computing ==> cycle_error.requires(()),
        ensures
            match old(self).state() {
                CacheState::Valid(v) => {
                    &&& r == Ok::<Rc<T>, E>(v)
                    &&& final(self).state() == old(self).state()
                },
                CacheState::Computing => {
                    &&& r matches Err(e) && cycle_error.ensures((), e)
                    &&& final(self).state() is Computing
                },
                CacheState::Outdated => exists|res: Result<T, E>|
                    #![trigger compute.ensures((), res)]
                    compute.ensures((), res) && match res {
                        Ok(v) => r == Ok::<Rc<T>, E>(Rc::new(v)) && final(self).state()
                            == CacheState::Valid(Rc::new(v)),
                        Err(e) => r == Err::<Rc<T>, E>(e) && final(self).state() is Outdated,
                    },
            },
    {
        match self.start() {
            Some(Ok(value)) => {
                return Ok(value);
            },
            Some(Err(())) => {
                return Err(cycle_error());
            },
            None => {},
        }
        match compute() {
            Ok(value) => {
                let value = self.finish(Some(value));
                Ok(value.unwrap())
            },
            Err(err) => {
                self.finish(None);
                Err(err)
            },
        }
    }
}

} // verus!
