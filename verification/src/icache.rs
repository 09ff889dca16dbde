//! Instruction-cache invalidation callbacks.
//!
//! The MMU notifies the [`ICache`] attached to its fabric whenever the
//! contents of an executable page may have changed or when a page is freed
//! and no longer in use, so cached translations can be discarded.
use vstd::prelude::*;
use crate::memory::PagePointer;

verus! {

/// An instruction cache that must be notified when executable memory
/// changes.
pub trait ICache {
    /// Invalidates any cached state derived from the contents of `page`.
    fn invalidate(&mut self, page: PagePointer);
}

/// An instruction cache with the notifications that it was given. Nothing
/// else is done to the cache, and nothing else extends the log.
pub struct Notified<T: ICache> {
    cache: T,
    log: Ghost<Seq<PagePointer>>,
}

impl<T: ICache> Notified<T> {
    /// The cache as it is now.
    pub closed spec fn inner(&self) -> T {
        self.cache
    }

    /// The notifications given so far, oldest first.
    pub closed spec fn invalidated(&self) -> Seq<PagePointer> {
        self.log@
    }

    /// A cache that was not given any notification yet.
    pub fn new(cache: T) -> (r: Self)
        ensures
            r.inner() == cache,
            r.invalidated() == Seq::<PagePointer>::empty(),
    {
        Notified { cache, log: Ghost(Seq::empty()) }
    }

    /// The cache.
    pub fn cache(&self) -> (r: &T)
        ensures
            *r == self.inner(),
    {
        &self.cache
    }

    /// Notifies the cache of a change of `page`.
    pub fn invalidate(&mut self, page: PagePointer)
        ensures
            final(self).invalidated() == old(self).invalidated().push(page),
            exists|cache: &mut T| #[trigger]
                call_ensures(T::invalidate, (cache, page), ()) && *cache == old(self).inner()
                    && *final(cache) == final(self).inner(),
    {
        self.cache.invalidate(page);
        self.log = Ghost(self.log@.push(page));
    }
}

} // verus!
