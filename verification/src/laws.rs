//! Laws relating several container operations.
//!
//! The operations of [`crate::raw::Raw`] state their effect on the
//! container's view, a `Map` from keys to payloads.  The laws below chain
//! those contracts over two or more calls, so each is phrased over views:
//! the map before the calls, the payloads involved, and what the
//! operations' own contracts then force the results to be.

use vstd::prelude::*;

use crate::raw::Payload;

verus! {

/// Inserting a payload and then another one with the same key: by
/// `insert`'s contract the second call hands back the first payload, and a
/// later `get` of the key finds the second payload.
pub proof fn law_insert_overwrites(m: Map<u64, Payload>, p: Payload, p2: Payload)
    requires
        p2.spec_key() == p.spec_key(),
    ensures
        m.insert(p.spec_key(), p).contains_key(p2.spec_key()),
        m.insert(p.spec_key(), p)[p2.spec_key()] == p,
        m.insert(p.spec_key(), p).insert(p2.spec_key(), p2)[p.spec_key()] == p2,
{
}

/// Removing a key just inserted: by `remove`'s contract the call hands
/// back exactly the inserted payload, and an immediate second `remove` of
/// the same key hands back nothing and changes nothing.
pub proof fn law_remove_after_insert(m: Map<u64, Payload>, p: Payload)
    ensures
        m.insert(p.spec_key(), p).contains_key(p.spec_key()),
        m.insert(p.spec_key(), p)[p.spec_key()] == p,
        !m.insert(p.spec_key(), p).remove(p.spec_key()).contains_key(p.spec_key()),
        m.insert(p.spec_key(), p).remove(p.spec_key()).remove(p.spec_key()) == m.insert(
            p.spec_key(),
            p,
        ).remove(p.spec_key()),
{
    assert(m.insert(p.spec_key(), p).remove(p.spec_key()).remove(p.spec_key()) =~= m.insert(
        p.spec_key(),
        p,
    ).remove(p.spec_key()));
}

/// `get_or_insert_with` is idempotent: once a first call has bound `k` to
/// a payload `pl`, the key is present with exactly `pl`, so by the
/// operation's contract every later call with `k` hands back `pl` and
/// leaves the container unchanged, without consulting its constructor.
pub proof fn law_get_or_insert_idempotent(m: Map<u64, Payload>, k: u64, pl: Payload)
    requires
        !m.contains_key(k),
    ensures
        m.insert(k, pl).contains_key(k),
        m.insert(k, pl)[k] == pl,
{
}

/// Draining every key empties the container: a map whose domain has lost
/// all its keys is the empty map, so by `is_empty`'s contract the test
/// then holds.
pub proof fn law_drained_is_empty(m: Map<u64, Payload>)
    requires
        forall|k: u64| !m.contains_key(k),
    ensures
        m == Map::<u64, Payload>::empty(),
{
    assert(m =~= Map::<u64, Payload>::empty());
}

} // verus!
