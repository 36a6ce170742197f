//! Leaf buckets: small contiguous sequences of payloads that share the
//! hash bits consumed on the way down to them.
//!
//! A bucket usually holds a single payload; longer buckets arise from true
//! hash collisions or when the 64-bit hash has been fully consumed.  A
//! bucket is never mutated in place by the engine: insertion and removal
//! build a new bucket and the old one is dropped.
//!
//! Buckets are stored in a `smallvec::SmallVec` so that the common one- or
//! two-payload case needs no heap allocation; the vector is reached only
//! through the trusted wrappers below, whose contracts speak of the
//! sequence of payloads it holds.

use vstd::prelude::*;

use crate::raw::Payload;

verus! {

/// Storage of one leaf bucket: the payloads are held in a
/// `smallvec::SmallVec` so that up to two of them live inline without a
/// heap allocation.  The vector is reached only through the wrappers
/// below; `bucket_model` names the sequence of payloads it holds.
#[verifier::external_body]
pub struct Data {
    vec: smallvec::SmallVec<[Payload; 2]>,
}

/// The sequence of payloads a bucket holds, in storage order.
pub uninterp spec fn bucket_model(d: Data) -> Seq<Payload>;

/// Relies on `smallvec::SmallVec::new`: constructs an empty vector.
#[verifier::external_body]
pub(crate) fn data_new() -> (d: Data)
    ensures
        bucket_model(d) == Seq::<Payload>::empty(),
{
    Data { vec: smallvec::SmallVec::new() }
}

/// Relies on `smallvec::SmallVec::push`: appends one element at the end.
#[verifier::external_body]
pub(crate) fn data_push(d: &mut Data, p: Payload)
    ensures
        bucket_model(*final(d)) == bucket_model(*old(d)).push(p),
{
    d.vec.push(p)
}

/// Relies on `smallvec::SmallVec::len`: the number of elements held.
#[verifier::external_body]
pub(crate) fn data_len(d: &Data) -> (n: usize)
    ensures
        n == bucket_model(*d).len(),
{
    d.vec.len()
}

/// Relies on the `Index` impl of `smallvec::SmallVec`: element `i` of the
/// underlying slice.
#[verifier::external_body]
pub(crate) fn data_get(d: &Data, i: usize) -> (p: Payload)
    requires
        i < bucket_model(*d).len(),
    ensures
        p == bucket_model(*d)[i as int],
{
    d.vec[i]
}

/// No two payloads of the sequence share a key.
pub open spec fn keys_distinct(s: Seq<Payload>) -> bool {
    forall|i: int, j: int|
        0 <= i < j < s.len() ==> s[i].spec_key() != s[j].spec_key()
}

/// The mapping a sequence of payloads represents: each payload is an entry
/// under its own key; a later payload wins over an earlier one.
pub open spec fn seq_key_map(s: Seq<Payload>) -> Map<u64, Payload>
    decreases s.len(),
{
    if s.len() == 0 {
        Map::empty()
    } else {
        seq_key_map(s.drop_last()).insert(s.last().spec_key(), s.last())
    }
}

pub(crate) proof fn lemma_seq_key_map_contains(s: Seq<Payload>, k: u64)
    ensures
        seq_key_map(s).contains_key(k) <==> (exists|i: int|
            0 <= i < s.len() && s[i].spec_key() == k),
    decreases s.len(),
{
    if s.len() > 0 {
        lemma_seq_key_map_contains(s.drop_last(), k);
        if s.last().spec_key() == k {
            assert(s[s.len() - 1].spec_key() == k);
        } else if seq_key_map(s).contains_key(k) {
            let i = choose|i: int| 0 <= i < s.drop_last().len() && s.drop_last()[i].spec_key() == k;
            assert(s[i].spec_key() == k);
        } else if exists|i: int| 0 <= i < s.len() && s[i].spec_key() == k {
            let i = choose|i: int| 0 <= i < s.len() && s[i].spec_key() == k;
            assert(i < s.len() - 1);
            assert(s.drop_last()[i].spec_key() == k);
        }
    }
}

pub(crate) proof fn lemma_seq_key_map_value(s: Seq<Payload>, i: int)
    requires
        keys_distinct(s),
        0 <= i < s.len(),
    ensures
        seq_key_map(s).contains_key(s[i].spec_key()),
        seq_key_map(s)[s[i].spec_key()] == s[i],
    decreases s.len(),
{
    if i == s.len() - 1 {
    } else {
        assert(keys_distinct(s.drop_last()));
        lemma_seq_key_map_value(s.drop_last(), i);
        assert(s.drop_last()[i] == s[i]);
        assert(s[i].spec_key() != s.last().spec_key());
    }
}

pub(crate) proof fn lemma_seq_key_map_key(s: Seq<Payload>, k: u64)
    requires
        seq_key_map(s).contains_key(k),
    ensures
        seq_key_map(s)[k].spec_key() == k,
    decreases s.len(),
{
    if s.len() > 0 && s.last().spec_key() != k {
        lemma_seq_key_map_key(s.drop_last(), k);
    }
}

pub(crate) proof fn lemma_seq_key_map_singleton(s: Seq<Payload>)
    requires
        s.len() == 1,
    ensures
        seq_key_map(s) == Map::<u64, Payload>::empty().insert(s[0].spec_key(), s[0]),
{
    assert(s.drop_last() =~= Seq::<Payload>::empty());
    assert(seq_key_map(s.drop_last()) == Map::<u64, Payload>::empty());
    assert(seq_key_map(s) =~= Map::<u64, Payload>::empty().insert(s[0].spec_key(), s[0]));
}

/// Find the first payload with the given key: the bucket's lookup scan.
pub(crate) fn bucket_find(d: &Data, key: u64) -> (r: Option<Payload>)
    requires
        keys_distinct(bucket_model(*d)),
    ensures
        match r {
            Some(p) => seq_key_map(bucket_model(*d)).contains_key(key) && p == seq_key_map(
                bucket_model(*d),
            )[key],
            None => !seq_key_map(bucket_model(*d)).contains_key(key),
        },
{
    let ghost s = bucket_model(*d);
    let n = data_len(d);
    let mut i: usize = 0;
    while i < n
        invariant
            n == s.len(),
            s == bucket_model(*d),
            keys_distinct(s),
            0 <= i <= n,
            forall|j: int| 0 <= j < i ==> s[j].spec_key() != key,
        decreases n - i,
    {
        let p = data_get(d, i);
        if *p.key() == key {
            proof {
                lemma_seq_key_map_value(s, i as int);
            }
            return Some(p);
        }
        i += 1;
    }
    proof {
        lemma_seq_key_map_contains(s, key);
    }
    None
}

/// The subsequence of payloads whose key differs from `k`, in order.
pub open spec fn seq_filter_out(s: Seq<Payload>, k: u64) -> Seq<Payload>
    decreases s.len(),
{
    if s.len() == 0 {
        s
    } else if s.last().spec_key() == k {
        seq_filter_out(s.drop_last(), k)
    } else {
        seq_filter_out(s.drop_last(), k).push(s.last())
    }
}

pub(crate) proof fn lemma_seq_filter_out(s: Seq<Payload>, k: u64)
    requires
        keys_distinct(s),
    ensures
        keys_distinct(seq_filter_out(s, k)),
        seq_key_map(seq_filter_out(s, k)) == seq_key_map(s).remove(k),
        seq_filter_out(s, k).len() == (if seq_key_map(s).contains_key(k) {
            s.len() - 1
        } else {
            s.len() as int
        }),
        !seq_key_map(s).contains_key(k) ==> seq_filter_out(s, k) == s,
    decreases s.len(),
{
    lemma_seq_key_map_contains(s, k);
    if s.len() == 0 {
        assert(seq_key_map(seq_filter_out(s, k)) =~= seq_key_map(s).remove(k));
    } else {
        let d = s.drop_last();
        assert(keys_distinct(d));
        lemma_seq_filter_out(d, k);
        lemma_seq_key_map_contains(d, k);
        if s.last().spec_key() == k {
            assert(forall|i: int| 0 <= i < d.len() ==> d[i].spec_key() != k);
            assert(!seq_key_map(d).contains_key(k));
            assert(seq_key_map(seq_filter_out(s, k)) =~= seq_key_map(s).remove(k));
            assert(exists|i: int| 0 <= i < s.len() && s[i].spec_key() == k);
        } else {
            let f = seq_filter_out(d, k);
            // the pushed payload's key is distinct from every key kept from `d`
            assert forall|i: int| 0 <= i < f.len() implies f[i].spec_key()
                != s.last().spec_key() by {
                lemma_seq_key_map_contains(f, f[i].spec_key());
                lemma_seq_key_map_key(f, f[i].spec_key());
                assert(seq_key_map(d).remove(k).contains_key(f[i].spec_key()));
                lemma_seq_key_map_contains(d, f[i].spec_key());
            }
            assert(keys_distinct(f.push(s.last())));
            assert(seq_key_map(f.push(s.last())) == seq_key_map(f).insert(
                s.last().spec_key(),
                s.last(),
            )) by {
                assert(f.push(s.last()).drop_last() =~= f);
            }
            assert(seq_key_map(seq_filter_out(s, k)) =~= seq_key_map(s).remove(k));
            if !seq_key_map(s).contains_key(k) {
                assert(!seq_key_map(d).contains_key(k)) by {
                    if seq_key_map(d).contains_key(k) {
                        let i = choose|i: int| 0 <= i < d.len() && d[i].spec_key() == k;
                        assert(s[i].spec_key() == k);
                    }
                }
                assert(seq_filter_out(s, k) =~= s);
            }
            if seq_key_map(s).contains_key(k) {
                assert(seq_key_map(d).contains_key(k)) by {
                    let i = choose|i: int| 0 <= i < s.len() && s[i].spec_key() == k;
                    assert(d[i] == s[i]);
                    lemma_seq_key_map_contains(d, k);
                }
            } else {
                assert(!seq_key_map(d).contains_key(k));
            }
        }
    }
}

/// Build the copy-on-write rewrite of a bucket: every payload whose key
/// differs from `key` is kept in order, and the payload whose key matches,
/// if any, is returned alongside.
pub(crate) fn bucket_filtered(d: &Data, key: u64) -> (r: (Data, Option<Payload>))
    requires
        keys_distinct(bucket_model(*d)),
    ensures
        bucket_model(r.0) == seq_filter_out(bucket_model(*d), key),
        keys_distinct(bucket_model(r.0)),
        seq_key_map(bucket_model(r.0)) == seq_key_map(bucket_model(*d)).remove(key),
        match r.1 {
            Some(p) => seq_key_map(bucket_model(*d)).contains_key(key) && p == seq_key_map(
                bucket_model(*d),
            )[key] && bucket_model(r.0).len() == bucket_model(*d).len() - 1,
            None => !seq_key_map(bucket_model(*d)).contains_key(key) && bucket_model(r.0)
                == bucket_model(*d),
        },
{
    let ghost s = bucket_model(*d);
    let n = data_len(d);
    let mut out = data_new();
    let mut removed: Option<Payload> = None;
    let mut i: usize = 0;
    while i < n
        invariant
            n == s.len(),
            s == bucket_model(*d),
            keys_distinct(s),
            0 <= i <= n,
            bucket_model(out) == seq_filter_out(s.take(i as int), key),
            match removed {
                Some(p) => exists|j: int| 0 <= j < i && s[j] == p && s[j].spec_key() == key,
                None => forall|j: int| 0 <= j < i ==> s[j].spec_key() != key,
            },
        decreases n - i,
    {
        let p = data_get(d, i);
        proof {
            assert(s.take(i + 1).drop_last() =~= s.take(i as int));
            assert(s.take(i + 1).last() == s[i as int]);
        }
        if *p.key() == key {
            removed = Some(p);
        } else {
            data_push(&mut out, p);
        }
        i += 1;
    }
    proof {
        assert(s.take(n as int) =~= s);
        lemma_seq_filter_out(s, key);
        lemma_seq_key_map_contains(s, key);
        if removed is Some {
            let p = removed.unwrap();
            let j = choose|j: int| 0 <= j < n && s[j] == p && s[j].spec_key() == key;
            lemma_seq_key_map_value(s, j);
        } else {
            assert(seq_key_map(s).remove(key) =~= seq_key_map(s));
        }
    }
    (out, removed)
}

} // verus!
