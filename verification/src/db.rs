use vstd::prelude::*;

verus! {

use vstd::utf8::encode_utf8;
use vstd::utf8::encode_utf8_decode_utf8;
use crate::content::Content;
use crate::content::ContentV;
use crate::content::fresh_content;
use crate::content::is_expired;
use crate::error::DBError;
use vstd::map::*;
use vstd::string::StrSliceExecFns;

/// Two string slices are equal exactly when their character sequences are.
/// Compares byte for byte; equal UTF-8 encodings mean equal characters.
pub fn str_eq(a: &str, b: &str) -> (r: bool)
    ensures
        r == (a@ == b@),
{
    proof {
        encode_utf8_decode_utf8(a@);
        encode_utf8_decode_utf8(b@);
    }
    let ab = a.as_bytes();
    let bb = b.as_bytes();
    if ab.len() != bb.len() {
        return false;
    }
    let n = ab.len();
    let mut i: usize = 0;
    while i < n
        invariant
            n == ab@.len() == bb@.len(),
            ab@ == encode_utf8(a@),
            bb@ == encode_utf8(b@),
            vstd::utf8::decode_utf8(encode_utf8(a@)) == a@,
            vstd::utf8::decode_utf8(encode_utf8(b@)) == b@,
            i <= n,
            forall|k: int| 0 <= k < i ==> ab@[k] == bb@[k],
        decreases n - i,
    {
        if *vstd::slice::slice_index_get(ab, i) != *vstd::slice::slice_index_get(bb, i) {
            return false;
        }
        i = i + 1;
    }
    proof {
        assert(ab@ =~= bb@);
    }
    true
}

/// The mapping a sequence of records stands for: later records win.
pub open spec fn map_of(s: Seq<Content>) -> Map<Seq<char>, ContentV>
    decreases s.len(),
{
    if s.len() == 0 {
        Map::empty()
    } else {
        map_of(s.drop_last()).insert(s.last()@.key, s.last()@)
    }
}

/// No two records share a key.
pub open spec fn distinct_keys(s: Seq<Content>) -> bool {
    forall|i: int, j: int|
        0 <= i < j < s.len() ==> (#[trigger] s[i])@.key != (#[trigger] s[j])@.key
}

/// A key is in the mapping exactly when some record carries it, and the
/// mapping then returns that record.
pub proof fn lemma_map_of_index(s: Seq<Content>, i: int)
    requires
        distinct_keys(s),
        0 <= i < s.len(),
    ensures
        map_of(s).contains_key(s[i]@.key),
        map_of(s)[s[i]@.key] == s[i]@,
    decreases s.len(),
{
    if i + 1 < s.len() {
        assert(s.drop_last()[i] == s[i]);
        lemma_map_of_index(s.drop_last(), i);
        assert(s[i]@.key != s.last()@.key);
    }
}

/// A key no record carries is not in the mapping.
pub proof fn lemma_map_of_absent(s: Seq<Content>, k: Seq<char>)
    requires
        forall|i: int| 0 <= i < s.len() ==> (#[trigger] s[i])@.key != k,
    ensures
        !map_of(s).contains_key(k),
    decreases s.len(),
{
    if s.len() > 0 {
        lemma_map_of_absent(s.drop_last(), k);
    }
}

/// Removing the record at index `i` removes exactly its key.
pub proof fn lemma_map_of_remove(s: Seq<Content>, i: int)
    requires
        distinct_keys(s),
        0 <= i < s.len(),
    ensures
        map_of(s.remove(i)) == map_of(s).remove(s[i]@.key),
        distinct_keys(s.remove(i)),
    decreases s.len(),
{
    let k = s[i]@.key;
    if i == s.len() - 1 {
        assert(s.remove(i) =~= s.drop_last());
        assert(forall|j: int| 0 <= j < s.drop_last().len() ==> (#[trigger] s.drop_last()[j])@.key != k);
        lemma_map_of_absent(s.drop_last(), k);
        assert_maps_equal!(map_of(s.drop_last()), map_of(s).remove(k));
    } else {
        let t = s.drop_last();
        assert(t[i] == s[i]);
        lemma_map_of_remove(t, i);
        assert(s.remove(i).drop_last() =~= t.remove(i));
        assert(s.remove(i).last() == s.last());
        assert(s.last()@.key != k);
        assert_maps_equal!(map_of(t.remove(i)).insert(s.last()@.key, s.last()@),
            map_of(t).insert(s.last()@.key, s.last()@).remove(k));
        assert(map_of(s.remove(i)) == map_of(t.remove(i)).insert(s.last()@.key, s.last()@));
    }
}

/// Appending a record inserts its key.
pub proof fn lemma_map_of_push(s: Seq<Content>, c: Content)
    ensures
        map_of(s.push(c)) == map_of(s).insert(c@.key, c@),
{
    assert(s.push(c).drop_last() =~= s);
    assert(s.push(c).last() == c);
}

/// The shared key-value store: the exclusive owner of every stored record,
/// modelled as the mapping from key to record.
pub struct Db {
    entries: Vec<Content>,
}

impl View for Db {
    type V = Map<Seq<char>, ContentV>;

    closed spec fn view(&self) -> Map<Seq<char>, ContentV> {
        map_of(self.entries@)
    }
}

/// What a lookup of `k` at time `now` does to the store and returns: a live
/// record is copied out, an expired one is evicted, an absent key is
/// reported as not found.
pub open spec fn get_post(
    pre: Map<Seq<char>, ContentV>,
    post: Map<Seq<char>, ContentV>,
    k: Seq<char>,
    r: Result<Option<Content>, DBError>,
    now: int,
) -> bool {
    if !pre.contains_key(k) {
        r == Err::<Option<Content>, DBError>(DBError::NotFound) && post == pre
    } else if is_expired(pre[k], now) {
        r == Err::<Option<Content>, DBError>(DBError::Expired) && post == pre.remove(k)
    } else {
        (r matches Ok(c) && c matches Some(c) && c@ == pre[k]) && post == pre
    }
}

impl Db {
    /// A store with no records.
    pub fn new() -> (r: Db)
        ensures
            r.inv(),
            r@ == Map::<Seq<char>, ContentV>::empty(),
    {
        Db { entries: Vec::new() }
    }

    /// The store's records carry pairwise distinct keys.
    pub closed spec fn inv(&self) -> bool {
        distinct_keys(self.entries@)
    }

    /// The index of the record carrying `key`, if any.
    fn find_idx(&self, key: &str) -> (r: Option<usize>)
        ensures
            match r {
                Some(i) => i < self.entries@.len() && self.entries@[i as int]@.key == key@,
                None => forall|i: int|
                    0 <= i < self.entries@.len() ==> (#[trigger] self.entries@[i])@.key != key@,
            },
    {
        let n = self.entries.len();
        let mut i: usize = 0;
        while i < n
            invariant
                n == self.entries@.len(),
                i <= n,
                forall|k: int| 0 <= k < i ==> (#[trigger] self.entries@[k])@.key != key@,
            decreases n - i,
        {
            if str_eq(self.entries[i].key.as_str(), key) {
                return Some(i);
            }
            i = i + 1;
        }
        None
    }

    /// Looks `key` up at time `now`. A live record is returned as a copy; an
    /// expired record is removed and reported; an absent key is not found.
    pub fn get_at(&mut self, key: &str, now: i64) -> (r: Result<Option<Content>, DBError>)
        requires
            old(self).inv(),
        ensures
            final(self).inv(),
            get_post(old(self)@, final(self)@, key@, r, now as int),
    {
        match self.find_idx(key) {
            None => {
                proof {
                    lemma_map_of_absent(self.entries@, key@);
                }
                Err(DBError::NotFound)
            },
            Some(i) => {
                proof {
                    lemma_map_of_index(self.entries@, i as int);
                }
                let c = &self.entries[i];
                if c.exp && c.exp_at < now {
                    proof {
                        lemma_map_of_remove(self.entries@, i as int);
                    }
                    self.entries.remove(i);
                    Err(DBError::Expired)
                } else {
                    Ok(Some(c.duplicate()))
                }
            },
        }
    }

    /// Stores `value` under `key` at time `now`, fully replacing any earlier
    /// record; a zero time-to-live stores a record that never expires.
    pub fn set_at(&mut self, key: &str, value: String, ttl: u64, now: i64) -> (r: Content)
        requires
            old(self).inv(),
        ensures
            final(self).inv(),
            r@ == fresh_content(key@, value@, ttl as int, now as int),
            final(self)@ == old(self)@.insert(key@, r@),
    {
        let c = Content::new(key.to_owned(), value, ttl, now);
        let out = c.duplicate();
        match self.find_idx(key) {
            None => {
                proof {
                    lemma_map_of_push(self.entries@, c);
                }
                self.entries.push(c);
            },
            Some(i) => {
                proof {
                    lemma_map_of_index(self.entries@, i as int);
                    lemma_map_of_remove(self.entries@, i as int);
                }
                self.entries.remove(i);
                proof {
                    lemma_map_of_push(self.entries@, c);
                    assert(old(self)@.remove(key@).insert(key@, c@) =~= old(self)@.insert(
                        key@,
                        c@,
                    ));
                }
                self.entries.push(c);
            },
        }
        out
    }

    /// Removes the record under `key`: reports whether one was there.
    pub fn del(&mut self, key: &str) -> (r: Result<(), DBError>)
        requires
            old(self).inv(),
        ensures
            final(self).inv(),
            old(self)@.contains_key(key@) ==> r == Ok::<(), DBError>(())
                && final(self)@ == old(self)@.remove(key@),
            !old(self)@.contains_key(key@) ==> r == Err::<(), DBError>(DBError::NotFound)
                && final(self)@ == old(self)@,
    {
        match self.find_idx(key) {
            None => {
                proof {
                    lemma_map_of_absent(self.entries@, key@);
                }
                Err(DBError::NotFound)
            },
            Some(i) => {
                proof {
                    lemma_map_of_index(self.entries@, i as int);
                    lemma_map_of_remove(self.entries@, i as int);
                }
                self.entries.remove(i);
                Ok(())
            },
        }
    }

    /// Looks `key` up at the wall clock's current time.
    pub fn get(&mut self, key: &str) -> (r: Result<Option<Content>, DBError>)
        requires
            old(self).inv(),
        ensures
            final(self).inv(),
            exists|now: int| get_post(old(self)@, final(self)@, key@, r, now),
    {
        let now = now_unix_seconds();
        let r = self.get_at(key, now);
        proof {
            assert(get_post(old(self)@, self@, key@, r, now as int));
        }
        r
    }

    /// Stores `value` under `key` at the wall clock's current time.
    pub fn set(&mut self, key: &str, value: String, ttl: u64) -> (r: Result<Content, DBError>)
        requires
            old(self).inv(),
        ensures
            final(self).inv(),
            r matches Ok(c) && exists|now: int|
                c@ == fresh_content(key@, value@, ttl as int, now)
                    && final(self)@ == old(self)@.insert(key@, c@),
    {
        let now = now_unix_seconds();
        let c = self.set_at(key, value, ttl, now);
        proof {
            assert(c@ == fresh_content(key@, c@.value, ttl as int, now as int));
        }
        Ok(c)
    }
}

/// Relies on chrono::Utc::now: reads the wall clock as Unix seconds.
/// Nothing is promised of the value; callers state what holds whatever
/// time comes back.
#[verifier::external_body]
fn now_unix_seconds() -> i64 {
    chrono::Utc::now().timestamp()
}

} // verus!
