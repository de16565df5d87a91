//! Laws of the store that relate its operations to one another.
use vstd::prelude::*;

use crate::entry::{entry_for, expiry_for};
use crate::store::{
    after_read, batch_applied, expired_keys, item_ok, live, live_part, ok_count, BatchItem,
    CacheMap,
};

verus! {

/// An entry stored with a positive time-to-live `ttl` at second `t` reads as
/// present at every second up to `t + ttl` and as absent at every second
/// after it.
pub proof fn lemma_ttl_window(m: CacheMap, k: Seq<char>, v: String, ttl: u64, t: u64, now: u64)
    requires
        ttl > 0,
    ensures
        live(m.insert(k, entry_for(v, ttl, t)), k, now) <==> now <= t + ttl,
{
}

/// An entry stored with a time-to-live of zero reads as present at every
/// second, survives reads and sweeps, and leaves only by removal.
pub proof fn lemma_zero_ttl_permanent(m: CacheMap, k: Seq<char>, v: String, t: u64, now: u64)
    ensures
        expiry_for(t, 0) is None,
        live(m.insert(k, entry_for(v, 0, t)), k, now),
        after_read(m.insert(k, entry_for(v, 0, t)), k, now) == m.insert(k, entry_for(v, 0, t)),
        live_part(m.insert(k, entry_for(v, 0, t)), now).contains_key(k),
{
}

/// Storing under a key that already holds an entry replaces value and
/// expiry together: nothing of the earlier entry remains.
pub proof fn lemma_replace(
    m: CacheMap,
    k: Seq<char>,
    v1: String,
    ttl1: u64,
    t1: u64,
    v2: String,
    ttl2: u64,
    t2: u64,
)
    ensures
        m.insert(k, entry_for(v1, ttl1, t1)).insert(k, entry_for(v2, ttl2, t2)) == m.insert(
            k,
            entry_for(v2, ttl2, t2),
        ),
{
    assert(m.insert(k, entry_for(v1, ttl1, t1)).insert(k, entry_for(v2, ttl2, t2)) =~= m.insert(
        k,
        entry_for(v2, ttl2, t2),
    ));
}

/// A read and a sweep at the same second agree on every key: a read keeps a
/// key exactly when the sweep does, and reports it present exactly then. The
/// sweep drops exactly the entries that have expired.
pub proof fn lemma_lazy_active_agree(m: CacheMap, k: Seq<char>, now: u64)
    requires
        m.dom().finite(),
    ensures
        live(m, k, now) <==> live_part(m, now).contains_key(k),
        after_read(m, k, now).contains_key(k) <==> live_part(m, now).contains_key(k),
        expired_keys(m, now).len() + live_part(m, now).len() == m.len(),
{
    assert(m.dom() =~= live_part(m, now).dom() + expired_keys(m, now));
    assert(live_part(m, now).dom().disjoint(expired_keys(m, now)));
    vstd::set_lib::lemma_set_subset_finite(m.dom(), live_part(m, now).dom());
    vstd::set_lib::lemma_set_subset_finite(m.dom(), expired_keys(m, now));
    vstd::set_lib::lemma_set_disjoint_lens(live_part(m, now).dom(), expired_keys(m, now));
}

/// The well-formed items of a batch, in order.
pub open spec fn ok_items(items: Seq<BatchItem>) -> Seq<BatchItem> {
    items.filter(|it: BatchItem| item_ok(it))
}

/// In a batch, malformed items do not disturb the others: the count of
/// stores is the number of well-formed items, and the key of every
/// well-formed item is present afterwards.
pub proof fn lemma_batch_isolation(m: CacheMap, items: Seq<BatchItem>, now: u64)
    ensures
        ok_count(items) == ok_items(items).len(),
        forall|j: int|
            0 <= j < items.len() && item_ok(#[trigger] items[j]) ==> live(
                batch_applied(m, items, now),
                items[j].0->0@,
                now,
            ),
    decreases items.len(),
{
    if items.len() > 0 {
        let pre = items.drop_last();
        lemma_batch_isolation(m, pre, now);
        reveal(Seq::filter);
        assert(ok_items(items) == if item_ok(items.last()) {
            ok_items(pre).push(items.last())
        } else {
            ok_items(pre)
        });
        assert forall|j: int|
            0 <= j < items.len() && item_ok(#[trigger] items[j]) implies live(
            batch_applied(m, items, now),
            items[j].0->0@,
            now,
        ) by {
            if j < items.len() - 1 {
                assert(pre[j] == items[j]);
            }
        }
    }
}

} // verus!
