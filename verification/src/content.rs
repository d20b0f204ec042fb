use vstd::prelude::*;

verus! {

/// One stored record: the key, the payload, and the expiry bookkeeping.
/// Timestamps are Unix seconds.
pub struct Content {
    pub key: String,
    pub value: String,
    pub exp: bool,
    pub created_at: i64,
    pub exp_at: i64,
}

/// The mathematical model of a stored record.
pub struct ContentV {
    pub key: Seq<char>,
    pub value: Seq<char>,
    pub exp: bool,
    pub created_at: int,
    pub exp_at: int,
}

impl View for Content {
    type V = ContentV;

    open spec fn view(&self) -> ContentV {
        ContentV {
            key: self.key@,
            value: self.value@,
            exp: self.exp,
            created_at: self.created_at as int,
            exp_at: self.exp_at as int,
        }
    }
}

/// The moment a record written at `now` with the given time-to-live stops
/// being served, saturating at the largest representable time.
pub open spec fn expiry_time(now: int, ttl: int) -> int {
    if ttl > i64::MAX {
        i64::MAX as int
    } else if now + ttl > i64::MAX {
        i64::MAX as int
    } else {
        now + ttl
    }
}

/// The record one set operation stores at time `now`. Expiry is armed only
/// by a positive time-to-live: a zero time-to-live means the record never
/// expires.
pub open spec fn fresh_content(key: Seq<char>, value: Seq<char>, ttl: int, now: int) -> ContentV {
    ContentV {
        key: key,
        value: value,
        exp: ttl > 0,
        created_at: now,
        exp_at: expiry_time(now, ttl),
    }
}

impl Content {
    /// Builds the record a set operation stores.
    pub fn new(key: String, value: String, ttl: u64, now: i64) -> (r: Content)
        ensures
            r@ == fresh_content(key@, value@, ttl as int, now as int),
    {
        let exp_at: i64 = if ttl > 9223372036854775807u64 {
            i64::MAX
        } else {
            let t = ttl as i64;
            if now > i64::MAX - t {
                i64::MAX
            } else {
                now + t
            }
        };
        Content { key, value, exp: ttl > 0, created_at: now, exp_at }
    }

    /// A field-for-field copy of this record.
    pub fn duplicate(&self) -> (r: Content)
        ensures
            r@ == self@,
    {
        Content {
            key: self.key.clone(),
            value: self.value.clone(),
            exp: self.exp,
            created_at: self.created_at,
            exp_at: self.exp_at,
        }
    }
}

/// A record is past its expiry at time `now` exactly when it was stored
/// with a positive time-to-live and `now` lies strictly after its expiry
/// moment: a record whose expiry was never armed is served forever.
pub open spec fn is_expired(c: ContentV, now: int) -> bool {
    c.exp && c.exp_at < now
}

} // verus!
