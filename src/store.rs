//! The key/value store: entries under unique text keys, each with its own
//! expiry. Every operation takes the current second explicitly, so that an
//! expired entry is never reported as present.
use vstd::prelude::*;

use crate::entry::{entry_for, CacheEntry};

verus! {

/// A store's contents: each key's entry.
pub type CacheMap = Map<Seq<char>, CacheEntry>;

/// Whether `k` holds an entry that has not expired at `now`.
pub open spec fn live(m: CacheMap, k: Seq<char>, now: u64) -> bool {
    m.contains_key(k) && !m[k].expired_at(now)
}

/// The contents after a read of `k` at `now`: an expired entry under `k` is
/// dropped, all else stays.
pub open spec fn after_read(m: CacheMap, k: Seq<char>, now: u64) -> CacheMap {
    if m.contains_key(k) && m[k].expired_at(now) {
        m.remove(k)
    } else {
        m
    }
}

/// The entries of `m` that have not expired at `now`.
pub open spec fn live_part(m: CacheMap, now: u64) -> CacheMap {
    Map::new(|k: Seq<char>| live(m, k, now), |k: Seq<char>| m[k])
}

/// The keys of `m` whose entries have expired at `now`.
pub open spec fn expired_keys(m: CacheMap, now: u64) -> Set<Seq<char>> {
    m.dom().filter(|k: Seq<char>| m[k].expired_at(now))
}

/// One item of a batch of stores: the key and the value as they were decoded
/// (`None`: the text could not be decoded), and the time-to-live.
pub type BatchItem = (Option<String>, Option<String>, u64);

/// Whether a batch item can be applied: both texts were decoded.
pub open spec fn item_ok(it: BatchItem) -> bool {
    it.0 is Some && it.1 is Some
}

/// The contents after the items of a batch are stored at `now` one after
/// another; malformed items are passed over.
pub open spec fn batch_applied(m: CacheMap, items: Seq<BatchItem>, now: u64) -> CacheMap
    decreases items.len(),
{
    if items.len() == 0 {
        m
    } else {
        let prev = batch_applied(m, items.drop_last(), now);
        let it = items.last();
        if item_ok(it) {
            prev.insert(it.0->0@, entry_for(it.1->0, it.2, now))
        } else {
            prev
        }
    }
}

/// The number of items of a batch that can be applied.
pub open spec fn ok_count(items: Seq<BatchItem>) -> nat
    decreases items.len(),
{
    if items.len() == 0 {
        0
    } else {
        ok_count(items.drop_last()) + if item_ok(items.last()) {
            1nat
        } else {
            0nat
        }
    }
}

/// Whether `k` is among the decoded keys of a lookup.
pub open spec fn requested(keys: Seq<Option<String>>, k: Seq<char>) -> bool {
    exists|j: int| 0 <= j < keys.len() && keys[j] is Some && (#[trigger] keys[j])->0@ == k
}

/// A key is among the first `i + 1` keys exactly when it is among the
/// first `i` or is key `i`.
proof fn lemma_requested_step(keys: Seq<Option<String>>, i: int)
    requires
        0 <= i < keys.len(),
    ensures
        forall|q: Seq<char>|
            #[trigger] requested(keys.take(i + 1), q) <==> requested(keys.take(i), q) || (
            keys[i] is Some && keys[i]->0@ == q),
{
    let pre = keys.take(i);
    let next = keys.take(i + 1);
    assert forall|q: Seq<char>|
        #[trigger] requested(next, q) <==> requested(pre, q) || (keys[i] is Some && keys[i]->0@ == q) by {
        if requested(next, q) {
            let j = choose|j: int| 0 <= j < next.len() && next[j] is Some && (#[trigger] next[j])->0@ == q;
            if j < i {
                assert(pre[j] == next[j]);
            }
        }
        if requested(pre, q) {
            let j = choose|j: int| 0 <= j < pre.len() && pre[j] is Some && (#[trigger] pre[j])->0@ == q;
            assert(pre[j] == next[j]);
        }
        if keys[i] is Some && keys[i]->0@ == q {
            assert(next[i] is Some && next[i]->0@ == q);
        }
    }
}

/// The contents after the keys of a lookup are read at `now`: the expired
/// entries under those keys are dropped.
pub open spec fn after_reads(m: CacheMap, keys: Seq<Option<String>>, now: u64) -> CacheMap {
    Map::new(
        |k: Seq<char>| m.contains_key(k) && !(m[k].expired_at(now) && requested(keys, k)),
        |k: Seq<char>| m[k],
    )
}

/// The pairs of key and value that a lookup of `keys` at `now` finds, in
/// the order of the keys.
pub open spec fn found(m: CacheMap, keys: Seq<Option<String>>, now: u64) -> Seq<(String, String)>
    decreases keys.len(),
{
    if keys.len() == 0 {
        Seq::empty()
    } else {
        let prev = found(m, keys.drop_last(), now);
        match keys.last() {
            Some(k) => if live(m, k@, now) {
                prev.push((k, m[k@].value))
            } else {
                prev
            },
            None => prev,
        }
    }
}

/// The views of a sequence of text pairs.
pub open spec fn pairs_view(pairs: Seq<(String, String)>) -> Seq<(Seq<char>, Seq<char>)> {
    pairs.map_values(|p: (String, String)| (p.0@, p.1@))
}

/// The JSON text of the object that holds the given pairs as members.
pub uninterp spec fn json_object_text(pairs: Seq<(Seq<char>, Seq<char>)>) -> Seq<char>;

/// Relies on serde_json::to_string over an ordered map from strings to
/// strings: the JSON text of that object. It fails only where a `Serialize`
/// impl fails or a map key is not a string, neither of which can happen here.
#[verifier::external_body]
fn json_object(pairs: &Vec<(String, String)>) -> (r: String)
    ensures
        r@ == json_object_text(pairs_view(pairs@)),
{
    let m: std::collections::BTreeMap<&str, &str> = pairs.iter().map(|p| (p.0.as_str(), p.1.as_str())).collect();
    serde_json::to_string(&m).unwrap_or_default()
}

/// The slots hold each key once, and exactly the entries of `model`.
spec fn slots_match(slots: Seq<(String, CacheEntry)>, model: CacheMap) -> bool {
    &&& model.dom().finite()
    &&& model.dom().len() == slots.len()
    &&& forall|i: int, j: int| 0 <= i < j < slots.len() ==> slots[i].0@ != slots[j].0@
    &&& forall|i: int|
        0 <= i < slots.len() ==> {
            &&& model.contains_key(#[trigger] slots[i].0@)
            &&& model[slots[i].0@] == slots[i].1
        }
    &&& forall|k: Seq<char>|
        #[trigger] model.contains_key(k) ==> exists|i: int| 0 <= i < slots.len() && slots[i].0@ == k
}

/// Putting an entry in the slot of its key, or in a new last slot where the
/// key is new, keeps the slots matching the model with that entry inserted.
proof fn lemma_put_slot(slots: Seq<(String, CacheEntry)>, model: CacheMap, i: int, p: (String, CacheEntry))
    requires
        slots_match(slots, model),
        0 <= i <= slots.len(),
        i < slots.len() ==> slots[i].0@ == p.0@,
        i == slots.len() ==> !model.contains_key(p.0@),
    ensures
        slots_match(
            if i < slots.len() { slots.update(i, p) } else { slots.push(p) },
            model.insert(p.0@, p.1),
        ),
{
    let new_slots = if i < slots.len() { slots.update(i, p) } else { slots.push(p) };
    let new_model = model.insert(p.0@, p.1);
    assert forall|j: int| 0 <= j < new_slots.len() && j != i implies new_slots[j] == slots[j] by {}
    assert forall|q: Seq<char>| #[trigger] new_model.contains_key(q) implies exists|j: int|
        0 <= j < new_slots.len() && new_slots[j].0@ == q by {
        if q != p.0@ {
            let j = choose|j: int| 0 <= j < slots.len() && slots[j].0@ == q;
            assert(new_slots[j] == slots[j]);
        } else {
            assert(new_slots[i].0@ == q);
        }
    }
}

/// A store of cache entries under unique keys.
pub struct MemoryCache {
    slots: Vec<(String, CacheEntry)>,
    model: Ghost<CacheMap>,
}

impl View for MemoryCache {
    type V = CacheMap;

    closed spec fn view(&self) -> CacheMap {
        self.model@
    }
}

impl MemoryCache {
    /// The slots hold each key once, and exactly the entries of the view.
    pub closed spec fn wf(&self) -> bool {
        slots_match(self.slots@, self.model@)
    }

    /// An empty store.
    pub fn new() -> (r: MemoryCache)
        ensures
            r.wf(),
            r@ == Map::<Seq<char>, CacheEntry>::empty(),
    {
        MemoryCache { slots: Vec::new(), model: Ghost(Map::empty()) }
    }

    /// The slot that holds `key`, if any.
    fn find(&self, key: &String) -> (r: Option<usize>)
        requires
            self.wf(),
        ensures
            match r {
                Some(i) => i < self.slots@.len() && self.slots@[i as int].0@ == key@,
                None => !self@.contains_key(key@),
            },
    {
        let mut i: usize = 0;
        while i < self.slots.len()
            invariant
                self.wf(),
                i <= self.slots@.len(),
                forall|j: int| 0 <= j < i ==> self.slots@[j].0@ != key@,
            decreases self.slots@.len() - i,
        {
            if self.slots[i].0 == *key {
                return Some(i);
            }
            i = i + 1;
        }
        None
    }

    /// Takes out slot `i` and its key.
    fn remove_slot(&mut self, i: usize)
        requires
            old(self).wf(),
            i < old(self).slots@.len(),
        ensures
            final(self).wf(),
            final(self)@ == old(self)@.remove(old(self).slots@[i as int].0@),
    {
        let ghost k = self.slots@[i as int].0@;
        let ghost old_slots = self.slots@;
        let _ = self.slots.remove(i);
        self.model = Ghost(self.model@.remove(k));
        assert forall|j: int| 0 <= j < self.slots@.len() implies {
            &&& self.model@.contains_key(#[trigger] self.slots@[j].0@)
            &&& self.model@[self.slots@[j].0@] == self.slots@[j].1
        } by {
            if j < i {
                assert(self.slots@[j] == old_slots[j]);
            } else {
                assert(self.slots@[j] == old_slots[j + 1]);
            }
        }
        assert forall|q: Seq<char>| #[trigger] self.model@.contains_key(q) implies exists|j: int|
            0 <= j < self.slots@.len() && self.slots@[j].0@ == q by {
            let j = choose|j: int| 0 <= j < old_slots.len() && old_slots[j].0@ == q;
            if j < i {
                assert(self.slots@[j] == old_slots[j]);
            } else {
                assert(self.slots@[j - 1] == old_slots[j]);
            }
        }
    }

    /// Stores `value` under `key` with time-to-live `ttl` (zero: no expiry)
    /// at second `now`, replacing any entry under `key` whole.
    pub fn set(&mut self, key: String, value: String, ttl: u64, now: u64)
        requires
            old(self).wf(),
        ensures
            final(self).wf(),
            final(self)@ == old(self)@.insert(key@, entry_for(value, ttl, now)),
    {
        let entry = CacheEntry::new_at(value, ttl, now);
        let ghost k = key@;
        let ghost p = (key, entry);
        match self.find(&key) {
            Some(i) => {
                proof {
                    lemma_put_slot(self.slots@, self.model@, i as int, p);
                }
                self.slots.set(i, (key, entry));
            },
            None => {
                proof {
                    lemma_put_slot(self.slots@, self.model@, self.slots@.len() as int, p);
                }
                self.slots.push((key, entry));
            },
        }
        self.model = Ghost(self.model@.insert(k, entry));
    }

    /// The value under `key` at second `now`. An expired entry is dropped
    /// and reads as absent.
    pub fn get(&mut self, key: &String, now: u64) -> (r: Option<String>)
        requires
            old(self).wf(),
        ensures
            final(self).wf(),
            final(self)@ == after_read(old(self)@, key@, now),
            r == (if live(old(self)@, key@, now) {
                Some(old(self)@[key@].value)
            } else {
                None
            }),
    {
        match self.find(key) {
            Some(i) => {
                if self.slots[i].1.is_expired_at(now) {
                    self.remove_slot(i);
                    None
                } else {
                    Some(self.slots[i].1.value.clone())
                }
            },
            None => None,
        }
    }

    /// Whether `key` holds an entry at second `now`. An expired entry is
    /// dropped and reads as absent.
    pub fn contains(&mut self, key: &String, now: u64) -> (r: bool)
        requires
            old(self).wf(),
        ensures
            final(self).wf(),
            final(self)@ == after_read(old(self)@, key@, now),
            r == live(old(self)@, key@, now),
    {
        match self.find(key) {
            Some(i) => {
                if self.slots[i].1.is_expired_at(now) {
                    self.remove_slot(i);
                    false
                } else {
                    true
                }
            },
            None => false,
        }
    }

    /// Removes the entry under `key`, expired or not; reports whether there
    /// was one.
    pub fn delete(&mut self, key: &String) -> (r: bool)
        requires
            old(self).wf(),
        ensures
            final(self).wf(),
            final(self)@ == old(self)@.remove(key@),
            r == old(self)@.contains_key(key@),
    {
        match self.find(key) {
            Some(i) => {
                self.remove_slot(i);
                true
            },
            None => {
                assert(self@.remove(key@) =~= self@);
                false
            },
        }
    }

    /// Removes every entry.
    pub fn clear(&mut self)
        requires
            old(self).wf(),
        ensures
            final(self).wf(),
            final(self)@ == Map::<Seq<char>, CacheEntry>::empty(),
    {
        self.slots.clear();
        self.model = Ghost(Map::empty());
    }

    /// The number of entries held, expired ones not yet dropped included.
    pub fn count(&self) -> (r: u64)
        requires
            self.wf(),
        ensures
            r == self@.len(),
    {
        self.slots.len() as u64
    }

    /// Drops every entry that has expired at second `now` and returns how
    /// many were dropped.
    pub fn cleanup(&mut self, now: u64) -> (r: u64)
        requires
            old(self).wf(),
        ensures
            final(self).wf(),
            final(self)@ == live_part(old(self)@, now),
            r == expired_keys(old(self)@, now).len(),
            r == old(self)@.len() - final(self)@.len(),
    {
        let ghost m = self@;
        let ghost old_slots = self.slots@;
        let mut kept: Vec<(String, CacheEntry)> = Vec::new();
        let ghost mut kept_model: CacheMap = Map::empty();
        let ghost mut dropped: Set<Seq<char>> = Set::empty();
        let mut removed: u64 = 0;
        let n = self.slots.len();
        let mut i: usize = 0;
        while i < n
            invariant
                self.wf(),
                self@ == m,
                self.slots@ == old_slots,
                n == old_slots.len(),
                i <= n,
                kept_model.dom().finite(),
                kept_model.dom().len() == kept@.len(),
                dropped.finite(),
                dropped.len() == removed,
                removed <= i,
                forall|a: int, b: int|
                    0 <= a < b < kept@.len() ==> kept@[a].0@ != kept@[b].0@,
                forall|a: int|
                    0 <= a < kept@.len() ==> {
                        &&& kept_model.contains_key(#[trigger] kept@[a].0@)
                        &&& kept_model[kept@[a].0@] == kept@[a].1
                    },
                forall|q: Seq<char>|
                    #[trigger] kept_model.contains_key(q) ==> exists|a: int|
                        0 <= a < kept@.len() && kept@[a].0@ == q,
                forall|q: Seq<char>|
                    #[trigger] kept_model.contains_key(q) <==> (exists|j: int|
                        0 <= j < i && old_slots[j].0@ == q) && live(m, q, now),
                forall|q: Seq<char>| kept_model.contains_key(q) ==> kept_model[q] == m[q],
                forall|q: Seq<char>|
                    #[trigger] dropped.contains(q) <==> (exists|j: int|
                        0 <= j < i && old_slots[j].0@ == q) && m.contains_key(q) && m[q].expired_at(now),
            decreases n - i,
        {
            let ghost q = old_slots[i as int].0@;
            assert(m.contains_key(q));
            assert(forall|j: int| 0 <= j < i ==> old_slots[j].0@ != q);
            if self.slots[i].1.is_expired_at(now) {
                proof {
                    assert(!dropped.contains(q));
                    dropped = dropped.insert(q);
                }
                removed = removed + 1;
            } else {
                let key = self.slots[i].0.clone();
                let entry = self.slots[i].1.duplicate();
                proof {
                    assert(!kept_model.contains_key(q));
                }
                let ghost before = kept@;
                kept.push((key, entry));
                proof {
                    kept_model = kept_model.insert(q, old_slots[i as int].1);
                    assert forall|a: int| 0 <= a < kept@.len() implies {
                        &&& kept_model.contains_key(#[trigger] kept@[a].0@)
                        &&& kept_model[kept@[a].0@] == kept@[a].1
                    } by {
                        if a < before.len() {
                            assert(kept@[a] == before[a]);
                        }
                    }
                    assert forall|p: Seq<char>| #[trigger] kept_model.contains_key(p) implies exists|a: int|
                        0 <= a < kept@.len() && kept@[a].0@ == p by {
                        if p != q {
                            let a = choose|a: int| 0 <= a < before.len() && before[a].0@ == p;
                            assert(kept@[a] == before[a]);
                        } else {
                            assert(kept@[before.len() as int].0@ == p);
                        }
                    }
                }
            }
            i = i + 1;
        }
        proof {
            assert forall|q: Seq<char>| m.contains_key(q) implies exists|j: int|
                0 <= j < n && old_slots[j].0@ == q by {
            }
            assert(kept_model =~= live_part(m, now));
            assert(dropped =~= expired_keys(m, now));
            assert(m.dom() =~= kept_model.dom() + dropped);
            vstd::set_lib::lemma_set_disjoint_lens(kept_model.dom(), dropped);
        }
        self.slots = kept;
        self.model = Ghost(kept_model);
        removed
    }

    /// Stores each item of a batch at second `now`, in order, passing over
    /// the malformed ones; returns how many were stored. A later item under
    /// the same key wins.
    pub fn set_multiple(&mut self, items: &Vec<BatchItem>, now: u64) -> (r: u64)
        requires
            old(self).wf(),
        ensures
            final(self).wf(),
            final(self)@ == batch_applied(old(self)@, items@, now),
            r == ok_count(items@),
    {
        let ghost m = self@;
        let mut count: u64 = 0;
        let mut i: usize = 0;
        assert(items@.take(0) =~= Seq::<BatchItem>::empty());
        while i < items.len()
            invariant
                self.wf(),
                i <= items@.len(),
                count <= i,
                self@ == batch_applied(m, items@.take(i as int), now),
                count == ok_count(items@.take(i as int)),
            decreases items@.len() - i,
        {
            assert(items@.take(i + 1).drop_last() =~= items@.take(i as int));
            assert(items@.take(i + 1).last() == items@[i as int]);
            let item = &items[i];
            match (&item.0, &item.1) {
                (Some(k), Some(v)) => {
                    self.set(k.clone(), v.clone(), item.2, now);
                    count = count + 1;
                },
                _ => {},
            }
            i = i + 1;
        }
        assert(items@.take(i as int) =~= items@);
        count
    }

    /// Reads each decoded key of `keys` at second `now` and returns the pairs
    /// of key and value found, in the order of the keys; absent and expired
    /// keys are left out, and expired entries are dropped.
    pub fn get_multiple(&mut self, keys: &Vec<Option<String>>, now: u64) -> (r: Vec<(String, String)>)
        requires
            old(self).wf(),
        ensures
            final(self).wf(),
            final(self)@ == after_reads(old(self)@, keys@, now),
            r@ == found(old(self)@, keys@, now),
    {
        let ghost m = self@;
        let mut out: Vec<(String, String)> = Vec::new();
        let mut i: usize = 0;
        assert(keys@.take(0) =~= Seq::<Option<String>>::empty());
        assert(after_reads(m, keys@.take(0), now) =~= m);
        while i < keys.len()
            invariant
                self.wf(),
                i <= keys@.len(),
                self@ == after_reads(m, keys@.take(i as int), now),
                out@ == found(m, keys@.take(i as int), now),
            decreases keys@.len() - i,
        {
            let ghost pre = keys@.take(i as int);
            let ghost next = keys@.take(i + 1);
            assert(next.drop_last() =~= pre);
            assert(next.last() == keys@[i as int]);
            proof {
                lemma_requested_step(keys@, i as int);
            }
            match &keys[i] {
                Some(k) => {
                    let ghost cur = self@;
                    assert(live(cur, k@, now) == live(m, k@, now));
                    let got = self.get(k, now);
                    match got {
                        Some(v) => {
                            out.push((k.clone(), v));
                        },
                        None => {},
                    }
                    assert(self@ =~= after_reads(m, next, now));
                },
                None => {
                    assert(self@ =~= after_reads(m, next, now));
                },
            }
            i = i + 1;
        }
        assert(keys@.take(i as int) =~= keys@);
        out
    }

    /// Reads the keys as `get_multiple` does and returns the pairs found as
    /// the text of one JSON object.
    pub fn get_multiple_json(&mut self, keys: &Vec<Option<String>>, now: u64) -> (r: String)
        requires
            old(self).wf(),
        ensures
            final(self).wf(),
            final(self)@ == after_reads(old(self)@, keys@, now),
            r@ == json_object_text(pairs_view(found(old(self)@, keys@, now))),
    {
        let pairs = self.get_multiple(keys, now);
        json_object(&pairs)
    }
}

/// Makes the store in `slot` if there is none yet; one already there is kept
/// as it is.
pub fn init_memory_cache(slot: &mut Option<MemoryCache>)
    requires
        *old(slot) matches Some(c) ==> c.wf(),
    ensures
        *final(slot) matches Some(c) && c.wf(),
        *old(slot) is Some ==> *final(slot) == *old(slot),
        *old(slot) is None ==> (*final(slot))->0@ == Map::<Seq<char>, CacheEntry>::empty(),
{
    if slot.is_none() {
        *slot = Some(MemoryCache::new());
    }
}

} // verus!
