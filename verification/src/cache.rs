//! The cache capability contract and the TTL decorator over it.

use crate::clock::duration_as_millis;
use crate::clock::instant_duration_since;
use crate::clock::instant_now;
use core::marker::PhantomData;
use vstd::prelude::*;

verus! {

/// The capability contract of a bounded cache backend: the minimal
/// operations any eviction policy must support, with their meaning given
/// over the backend's contents, read as a map from key to value.
pub trait Cache<T: Clone>: Sized {
    /// The capacity the backend was created with.
    spec fn cap(&self) -> nat;

    /// The stored contents: a map from key to value.
    spec fn contents(&self) -> Map<Seq<char>, T>;

    /// The backend's internal invariant.
    spec fn wf(&self) -> bool;

    /// The capacity invariant: a well-formed backend never holds more
    /// values than its capacity.
    proof fn lemma_wf_bounded(&self)
        requires
            self.wf(),
        ensures
            self.contents().dom().finite(),
            self.contents().dom().len() <= self.cap(),
    ;

    /// Creates an empty backend sized for `capacity` entries.
    fn new(capacity: usize) -> (r: Self)
        requires
            1 <= capacity,
        ensures
            r.wf(),
            r.cap() == capacity,
            r.contents() == Map::<Seq<char>, T>::empty(),
    ;

    /// Hands back a clone of the value stored under `key`, if any.
    fn get(&self, key: &str) -> (r: Option<T>)
        requires
            self.wf(),
        ensures
            match r {
                Some(v) => self.contents().contains_key(key@) && cloned::<T>(
                    self.contents()[key@],
                    v,
                ),
                None => !self.contents().contains_key(key@),
            },
    ;

    /// Inserts or overwrites the value under `key`. A key already present,
    /// or room to spare, leaves every other entry in place; a new key in a
    /// full backend costs exactly one other entry its slot.
    fn set(&mut self, key: &str, value: T)
        requires
            old(self).wf(),
        ensures
            final(self).wf(),
            final(self).cap() == old(self).cap(),
            final(self).contents().contains_key(key@),
            final(self).contents()[key@] == value,
            forall|k: Seq<char>|
                k != key@ && #[trigger] final(self).contents().contains_key(k) ==> old(self).contents().contains_key(k) && final(self).contents()[k] == old(self).contents()[k],
            old(self).contents().contains_key(key@) || old(self).contents().dom().len() < old(self).cap() ==> final(self).contents().dom() == old(self).contents().dom().insert(key@),
            !old(self).contents().contains_key(key@) && old(self).contents().dom().len() == old(self).cap() ==> (exists|victim: Seq<char>|
                #![auto]
                {
                    &&& old(self).contents().contains_key(victim)
                    &&& victim != key@
                    &&& final(self).contents().dom() == old(self).contents().dom().remove(
                        victim,
                    ).insert(key@)
                }),
    ;

    /// Unconditionally removes `key`; absent keys are a no-op.
    fn evict(&mut self, key: &str)
        requires
            old(self).wf(),
        ensures
            final(self).wf(),
            final(self).cap() == old(self).cap(),
            final(self).contents() == old(self).contents().remove(key@),
    ;

    /// How many values the backend holds.
    fn len(&self) -> (n: usize)
        requires
            self.wf(),
        ensures
            n == self.contents().dom().len(),
    ;
}

/// A stored value together with the clock stamp (in milliseconds on the
/// owning cache's clock) past which it is dead.
pub struct CacheWithTTLEntry<T> {
    pub value: T,
    pub ttl: u64,
}

impl<T: Clone> Clone for CacheWithTTLEntry<T> {
    /// The clone keeps the expiry stamp exactly and clones the value.
    fn clone(&self) -> (r: Self)
        ensures
            r.ttl == self.ttl,
            cloned::<T>(self.value, r.value),
    {
        CacheWithTTLEntry { value: self.value.clone(), ttl: self.ttl }
    }
}

/// A decorator over any cache backend that stamps each stored value with an
/// expiry instant and lazily evicts dead entries when a read finds them.
pub struct CacheWithTTL<T: Clone, C: Cache<CacheWithTTLEntry<T>>> {
    cache: C,
    epoch: std::time::Instant,
    _dummy: PhantomData<T>,
}

impl<T: Clone, C: Cache<CacheWithTTLEntry<T>>> CacheWithTTL<T, C> {
    /// The wrapped contents: key to stamped entry.
    pub closed spec fn contents(&self) -> Map<Seq<char>, CacheWithTTLEntry<T>> {
        self.cache.contents()
    }

    /// The wrapped backend's capacity.
    pub closed spec fn cap(&self) -> nat {
        self.cache.cap()
    }

    /// The decorator is well-formed exactly when its backend is.
    pub closed spec fn wf(&self) -> bool {
        self.cache.wf()
    }

    /// Creates an empty cache sized for `capacity` entries, with its clock
    /// started now.
    pub fn new(capacity: usize) -> (r: Self)
        requires
            1 <= capacity,
        ensures
            r.wf(),
            r.cap() == capacity,
            r.contents() == Map::<Seq<char>, CacheWithTTLEntry<T>>::empty(),
    {
        CacheWithTTL { cache: C::new(capacity), epoch: instant_now(), _dummy: PhantomData }
    }

    /// The clock's reading, as whole milliseconds since this cache was
    /// created, saturating at the largest representable stamp.
    fn now_millis(&self) -> u64 {
        let now = instant_now();
        let d = instant_duration_since(&now, &self.epoch);
        let ms = duration_as_millis(&d);
        if ms > u64::MAX as u128 {
            u64::MAX
        } else {
            ms as u64
        }
    }

    /// Answers a read as of clock time `now`: a live entry hands out a
    /// clone of its value; a dead one (expiry at or before `now`) is
    /// evicted on the spot and reads as absent.
    pub fn get_at(&mut self, key: &str, now: u64) -> (r: Option<T>)
        requires
            old(self).wf(),
        ensures
            final(self).wf(),
            final(self).cap() == old(self).cap(),
            !old(self).contents().contains_key(key@) ==> r is None && final(self).contents()
                == old(self).contents(),
            old(self).contents().contains_key(key@) && old(self).contents()[key@].ttl <= now
                ==> r is None && final(self).contents() == old(self).contents().remove(key@),
            old(self).contents().contains_key(key@) && old(self).contents()[key@].ttl > now ==> (
            r matches Some(v) && cloned::<T>(old(self).contents()[key@].value, v) && final(self).contents() == old(self).contents()),
    {
        let entry = match self.cache.get(key) {
            None => {
                return None;
            },
            Some(e) => e,
        };
        if entry.ttl <= now {
            self.cache.evict(key);
            return None;
        }
        Some(entry.value)
    }

    /// Reads `key` at the current clock time. Whatever instant the clock
    /// hands back, either a clone of the stored value is returned and the
    /// contents stay put, or the entry had expired: it is removed and the
    /// read reports absence.
    pub fn get(&mut self, key: &str) -> (r: Option<T>)
        requires
            old(self).wf(),
        ensures
            final(self).wf(),
            final(self).cap() == old(self).cap(),
            !old(self).contents().contains_key(key@) ==> r is None && final(self).contents()
                == old(self).contents(),
            old(self).contents().contains_key(key@) ==> {
                ||| (r matches Some(v) && cloned::<T>(old(self).contents()[key@].value, v)
                    && final(self).contents() == old(self).contents())
                ||| (r is None && final(self).contents() == old(self).contents().remove(key@))
            },
    {
        let now = self.now_millis();
        self.get_at(key, now)
    }

    /// Stores `value` under `key` with its expiry stamp already computed.
    pub fn set_at(&mut self, key: &str, value: T, expires_at: u64)
        requires
            old(self).wf(),
        ensures
            final(self).wf(),
            final(self).cap() == old(self).cap(),
            final(self).contents().contains_key(key@),
            final(self).contents()[key@].value == value,
            final(self).contents()[key@].ttl == expires_at,
            forall|k: Seq<char>|
                k != key@ && #[trigger] final(self).contents().contains_key(k) ==> old(self).contents().contains_key(k) && final(self).contents()[k] == old(self).contents()[k],
            old(self).contents().contains_key(key@) || old(self).contents().dom().len() < old(self).cap() ==> final(self).contents().dom() == old(self).contents().dom().insert(key@),
            !old(self).contents().contains_key(key@) && old(self).contents().dom().len() == old(self).cap() ==> (exists|victim: Seq<char>|
                #![auto]
                {
                    &&& old(self).contents().contains_key(victim)
                    &&& victim != key@
                    &&& final(self).contents().dom() == old(self).contents().dom().remove(
                        victim,
                    ).insert(key@)
                }),
    {
        self.cache.set(key, CacheWithTTLEntry { value, ttl: expires_at });
    }

    /// Stores `value` under `key`, to live for `ttl` from the clock's
    /// current reading (the stamp saturates rather than wrap).
    pub fn set(&mut self, key: &str, value: T, ttl: core::time::Duration)
        requires
            old(self).wf(),
        ensures
            final(self).wf(),
            final(self).cap() == old(self).cap(),
            final(self).contents().contains_key(key@),
            final(self).contents()[key@].value == value,
            forall|k: Seq<char>|
                k != key@ && #[trigger] final(self).contents().contains_key(k) ==> old(self).contents().contains_key(k) && final(self).contents()[k] == old(self).contents()[k],
            old(self).contents().contains_key(key@) || old(self).contents().dom().len() < old(self).cap() ==> final(self).contents().dom() == old(self).contents().dom().insert(key@),
            !old(self).contents().contains_key(key@) && old(self).contents().dom().len() == old(self).cap() ==> (exists|victim: Seq<char>|
                #![auto]
                {
                    &&& old(self).contents().contains_key(victim)
                    &&& victim != key@
                    &&& final(self).contents().dom() == old(self).contents().dom().remove(
                        victim,
                    ).insert(key@)
                }),
    {
        let now = self.now_millis();
        let wide = duration_as_millis(&ttl);
        let ttl_ms = if wide > u64::MAX as u128 {
            u64::MAX
        } else {
            wide as u64
        };
        let expires_at = if now > u64::MAX - ttl_ms {
            u64::MAX
        } else {
            now + ttl_ms
        };
        self.set_at(key, value, expires_at)
    }

    /// How many entries the wrapped backend holds; dead-but-unread entries
    /// still count until a read finds them.
    pub fn len(&self) -> (n: usize)
        requires
            self.wf(),
        ensures
            n == self.contents().dom().len(),
    {
        self.cache.len()
    }
}

} // verus!
