//! A cached value together with the times that govern its life.
use vstd::prelude::*;

verus! {

/// A cached value, the second at which it was stored, and the second after
/// which it counts as expired (`None`: it never expires). Times are whole
/// seconds since the Unix epoch.
#[derive(Debug)]
pub struct CacheEntry {
    pub value: String,
    pub expires_at: Option<u64>,
    pub created_at: u64,
}

/// The expiry of an entry stored at `created_at` with time-to-live `ttl`:
/// none for a `ttl` of zero, else `created_at + ttl`, held at the largest
/// representable second where the sum would not fit.
pub open spec fn expiry_for(created_at: u64, ttl: u64) -> Option<u64> {
    if ttl == 0 {
        None
    } else if created_at + ttl > u64::MAX {
        Some(u64::MAX)
    } else {
        Some((created_at + ttl) as u64)
    }
}

/// The entry that storing `value` with time-to-live `ttl` at second `now` makes.
pub open spec fn entry_for(value: String, ttl: u64, now: u64) -> CacheEntry {
    CacheEntry { value, expires_at: expiry_for(now, ttl), created_at: now }
}

impl CacheEntry {
    /// Whether the entry has expired at second `now`: it has an expiry and
    /// `now` lies strictly after it.
    pub open spec fn expired_at(self, now: u64) -> bool {
        match self.expires_at {
            Some(t) => now > t,
            None => false,
        }
    }

    /// A copy of the entry, field for field.
    pub fn duplicate(&self) -> (r: CacheEntry)
        ensures
            r == *self,
    {
        CacheEntry { value: self.value.clone(), expires_at: self.expires_at, created_at: self.created_at }
    }

    /// The entry for `value` stored at second `now` with time-to-live `ttl`.
    pub fn new_at(value: String, ttl: u64, now: u64) -> (r: CacheEntry)
        ensures
            r == entry_for(value, ttl, now),
    {
        let expires_at = if ttl > 0 {
            Some(now.saturating_add(ttl))
        } else {
            None
        };
        CacheEntry { value, expires_at, created_at: now }
    }

    /// The entry for `value` stored now, by the system clock, with
    /// time-to-live `ttl`.
    pub fn new(value: String, ttl: u64) -> (r: CacheEntry)
        ensures
            r == entry_for(value, ttl, r.created_at),
    {
        let now = now_secs();
        CacheEntry::new_at(value, ttl, now)
    }

    /// Whether the entry has expired at second `now`.
    pub fn is_expired_at(&self, now: u64) -> (r: bool)
        ensures
            r == self.expired_at(now),
    {
        match self.expires_at {
            Some(t) => now > t,
            None => false,
        }
    }

    /// Whether the entry has expired now, by the system clock. An entry
    /// without an expiry never has.
    pub fn is_expired(&self) -> (r: bool)
        ensures
            self.expires_at is None ==> !r,
    {
        let now = now_secs();
        self.is_expired_at(now)
    }
}

/// Relies on SystemTime::now, read as whole seconds since the Unix epoch
/// (a clock set before the epoch reads as zero). Nothing is promised of the
/// value.
#[verifier::external_body]
fn now_secs() -> (r: u64) {
    std::time::SystemTime::now().duration_since(std::time::UNIX_EPOCH).unwrap_or_default().as_secs()
}

} // verus!
