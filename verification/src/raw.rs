//! The trie engine: traversal, insertion, lookup, removal and pruning.

use vstd::prelude::*;

use vstd::pervasive::unreached;

use crate::bucket::{
    Data, bucket_filtered, bucket_find, bucket_model, data_get, data_len, data_new, data_push,
    keys_distinct, lemma_seq_filter_out, lemma_seq_key_map_contains, lemma_seq_key_map_singleton,
    seq_filter_out, seq_key_map,
};
use crate::hash::BuildHash;
use crate::node::{
    Inner, NodePtr, cell_keys_ok, cells_map, inner_cells_ok, lemma_cells_map_all_null,
    lemma_cells_map_contains, lemma_cells_map_lookup, lemma_cells_map_single,
    lemma_cells_map_update_insert, lemma_cells_map_update_remove, lemma_slot_range,
    lemma_wf_map_keys, lemma_wf_nonempty, new_cells, ptr_map, ptr_wf, set_cell, slot, take_cell,
};

verus! {

/// Number of hash bits consumed per level of the trie.
pub const LEVEL_BITS: usize = 4;

/// Mask selecting the hash bits of one level.
pub const LEVEL_MASK: u64 = 0b1111;

/// Fan-out of an inner node.
pub const LEVEL_CELLS: usize = 16;

/// Maximum number of levels before the 64-bit hash is exhausted.
pub const MAX_LEVELS: usize = 64 / LEVEL_BITS;

/// A payload stored in the container: a key together with its value.
#[derive(Copy, Clone, Debug, Default, Eq, PartialEq, Hash, Ord, PartialOrd)]
pub struct Leaf<K, V> {
    key: K,
    value: V,
}

impl<K, V> Leaf<K, V> {
    /// The key of this payload.
    pub closed spec fn spec_key(self) -> K {
        self.key
    }

    /// The value of this payload.
    pub closed spec fn spec_value(self) -> V {
        self.value
    }

    pub fn new(key: K, value: V) -> (l: Self)
        ensures
            l.spec_key() == key,
            l.spec_value() == value,
    {
        Self { key, value }
    }

    pub fn key(&self) -> (k: &K)
        ensures
            *k == self.spec_key(),
    {
        &self.key
    }

    pub fn value(&self) -> (v: &V)
        ensures
            *v == self.spec_value(),
    {
        &self.value
    }
}

/// The payload type the engine stores: a key and its value, both machine
/// words, so payloads copy cheaply.
pub type Payload = Leaf<u64, u64>;

/// What a traversal is inserting: either a payload built up front, or a
/// key together with a constructor to call only if the key is absent.
pub enum TraverseState<F> {
    /// Invalid temporary state while the payload is being moved out.
    Empty,
    Created(Payload),
    Future { key: u64, constructor: F },
}

/// Whether a traversal overwrites an existing payload with the same key or
/// leaves it in place.
#[derive(Copy, Clone, Eq, PartialEq, Structural)]
pub enum TraverseMode {
    Overwrite,
    IfMissing,
}

impl<F: FnOnce(u64) -> Payload> TraverseState<F> {
    /// The key the traversal looks for.
    pub open spec fn spec_key(self) -> u64 {
        match self {
            TraverseState::Empty => 0,
            TraverseState::Created(p) => p.spec_key(),
            TraverseState::Future { key, .. } => key,
        }
    }

    /// `pl` is a payload this state can produce.
    pub open spec fn spec_result(self, pl: Payload) -> bool {
        match self {
            TraverseState::Empty => false,
            TraverseState::Created(p) => pl == p,
            TraverseState::Future { key, constructor } => call_ensures(constructor, (key,), pl),
        }
    }

    /// The state can produce a payload: any constructor call succeeds and
    /// yields a payload carrying the state's own key.
    pub open spec fn spec_ok(self) -> bool {
        match self {
            TraverseState::Empty => false,
            TraverseState::Created(p) => true,
            TraverseState::Future { key, constructor } => call_requires(constructor, (key,))
                && (forall|pl: Payload|
                call_ensures(constructor, (key,), pl) ==> pl.spec_key() == key),
        }
    }

    pub fn key(&self) -> (k: u64)
        requires
            !(*self is Empty),
        ensures
            k == self.spec_key(),
    {
        match self {
            TraverseState::Empty => unreached(),
            TraverseState::Created(p) => *p.key(),
            TraverseState::Future { key, .. } => *key,
        }
    }

    /// Produce the payload, running the constructor if one is pending; the
    /// state afterwards carries the constructed payload.
    pub fn payload(&mut self) -> (pl: Payload)
        requires
            !(*old(self) is Empty),
            old(self).spec_ok(),
        ensures
            old(self).spec_result(pl),
            pl.spec_key() == old(self).spec_key(),
            *final(self) == TraverseState::<F>::Created(pl),
    {
        let mut tmp = TraverseState::Empty;
        core::mem::swap(self, &mut tmp);
        match tmp {
            TraverseState::Empty => unreached(),
            TraverseState::Created(p) => {
                *self = TraverseState::Created(p);
                p
            },
            TraverseState::Future { key, constructor } => {
                let pl = constructor(key);
                *self = TraverseState::Created(pl);
                pl
            },
        }
    }

    /// Produce the payload, consuming the state.
    pub fn into_payload(self) -> (pl: Payload)
        requires
            !(self is Empty),
            self.spec_ok(),
        ensures
            self.spec_result(pl),
            pl.spec_key() == self.spec_key(),
    {
        match self {
            TraverseState::Empty => unreached(),
            TraverseState::Created(p) => p,
            TraverseState::Future { key, constructor } => constructor(key),
        }
    }

    /// What a finished traversal hands back after it inserted the payload:
    /// nothing when overwriting, the inserted payload when it was missing.
    pub fn into_return(self, mode: TraverseMode) -> (r: Option<Payload>)
        requires
            mode is IfMissing ==> !(self is Empty) && self.spec_ok(),
        ensures
            mode is Overwrite ==> r is None,
            mode is IfMissing ==> (r matches Some(pl) && self.spec_result(pl)
                && pl.spec_key() == self.spec_key()),
    {
        match mode {
            TraverseMode::Overwrite => None,
            TraverseMode::IfMissing => Some(self.into_payload()),
        }
    }
}

/// How pruning went: what was published into the parent cell.  With
/// exclusive access the publication itself cannot fail, so the outcomes
/// are the three successful ones.
pub(crate) enum PruneResult {
    /// The node had no children left; the parent now holds null.
    Null,
    /// The node's lone child was a leaf bucket; the edge was contracted.
    Singleton,
    /// More than one pointer still leads from the node (or its lone child
    /// is itself an inner node, whose edge must not be contracted lest the
    /// hash bits it discriminates on be skipped): the parent keeps an
    /// equivalent clean node.
    Copy,
}


/// Descend from a cell towards the key's bucket and scan it.
fn get_at<S: BuildHash>(h: &S, p: &NodePtr, shift: u64, hash: u64, key: u64) -> (r: Option<
    Payload,
>)
    requires
        ptr_wf(*h, *p, shift),
        hash == h.spec_hash(key),
    ensures
        match r {
            Some(pl) => ptr_map(*p).contains_key(key) && pl == ptr_map(*p)[key],
            None => !ptr_map(*p).contains_key(key),
        },
    decreases *p,
{
    match p {
        NodePtr::Null => None,
        NodePtr::Data(d) => {
            let r = bucket_find(d, key);
            proof {
                assert(ptr_map(*p) == seq_key_map(bucket_model(*d)));
            }
            r
        },
        NodePtr::Inner(n) => {
            let idx: usize = ((hash >> shift) & 15) as usize;
            proof {
                lemma_slot_range(*h, shift, key);
                assert(idx as int == slot(*h, shift, key));
                lemma_cells_map_lookup(*h, n.cells, shift, key, 0);
                assert(ptr_wf(*h, n.cells[idx as int], (shift + 4) as u64));
                assert(ptr_map(*p) == cells_map(n.cells, 0));
            }
            get_at(h, &n.cells[idx], shift + 4, hash, key)
        },
    }
}

/// Push a one-payload bucket one level down (repeatedly, while the two
/// hashes keep agreeing) to make room for a payload with a different key,
/// and return the inner node that replaces the bucket's cell.
fn split_insert<S: BuildHash, F: FnOnce(u64) -> Payload>(
    h: &S,
    d: Data,
    shift: u64,
    hash: u64,
    state: TraverseState<F>,
    mode: TraverseMode,
) -> (r: (NodePtr, Option<Payload>))
    requires
        bucket_model(d).len() == 1,
        !(state is Empty),
        state.spec_ok(),
        hash == h.spec_hash(state.spec_key()),
        bucket_model(d)[0].spec_key() != state.spec_key(),
        shift < 64,
        shift % 4 == 0,
    ensures
        ptr_wf(*h, r.0, shift),
        !(r.0 is Null),
        (exists|pl: Payload| #[trigger]
            state.spec_result(pl) && ptr_map(r.0) == seq_key_map(bucket_model(d)).insert(
                state.spec_key(),
                pl,
            )),
        (r.1 matches Some(pl) ==> state.spec_result(pl) && ptr_map(r.0) == seq_key_map(
            bucket_model(d),
        ).insert(state.spec_key(), pl)),
        mode is Overwrite ==> r.1 is None,
        mode is IfMissing ==> r.1 is Some,
    decreases 64 - shift,
{
    let ghost st0 = state;
    let ghost k = state.spec_key();
    let ghost s = bucket_model(d);
    let ghost m = seq_key_map(s);
    proof {
        // the one-payload bucket represents exactly its payload's binding
        lemma_seq_key_map_singleton(s);
        lemma_seq_key_map_contains(s, k);
    }
    let other = data_get(&d, 0);
    let okey = *other.key();
    let oh = h.hash_key(okey);
    let ob: usize = ((oh >> shift) & 15) as usize;
    let idx: usize = ((hash >> shift) & 15) as usize;
    proof {
        lemma_slot_range(*h, shift, okey);
        lemma_slot_range(*h, shift, k);
        assert(ob as int == slot(*h, shift, okey));
        assert(idx as int == slot(*h, shift, k));
    }
    let mut cells = new_cells();
    if ob != idx {
        // the two hashes part ways here: both buckets fit in this node
        set_cell(&mut cells, ob, NodePtr::Data(d));
        let mut st = state;
        let pl = st.payload();
        let mut nd = data_new();
        data_push(&mut nd, pl);
        proof {
            lemma_seq_key_map_singleton(bucket_model(nd));
        }
        set_cell(&mut cells, idx, NodePtr::Data(nd));
        let node = NodePtr::Inner(Box::new(Inner { cells }));
        proof {
            lemma_split_two(*h, node, d, nd, shift, ob as int, idx as int, k, pl);
        }
        (node, st.into_return(mode))
    } else {
        // the hashes still agree on these four bits: the new node has a
        // single child one level further down
        let child: NodePtr;
        let ret: Option<Payload>;
        let ghost pl0: Payload;
        if shift + 4 < 64 {
            let (c, r) = split_insert(h, d, shift + 4, hash, state, mode);
            proof {
                pl0 = choose|pl: Payload|
                    st0.spec_result(pl) && ptr_map(c) == m.insert(k, pl);
            }
            child = c;
            ret = r;
        } else {
            // the hash is exhausted: the two payloads share a collision bucket
            let (mut nd, _absent) = bucket_filtered(&d, state.key());
            let mut st = state;
            let pl = st.payload();
            data_push(&mut nd, pl);
            proof {
                pl0 = pl;
                assert(bucket_model(nd) == s.push(pl));
                assert(keys_distinct(s.push(pl)));
                assert(s.push(pl).drop_last() =~= s);
                assert(ptr_map(NodePtr::Data(nd)) == m.insert(k, pl));
            }
            child = NodePtr::Data(nd);
            ret = st.into_return(mode);
        }
        set_cell(&mut cells, ob, child);
        let node = NodePtr::Inner(Box::new(Inner { cells }));
        proof {
            lemma_split_chain(*h, node, child, d, shift, ob as int, k, pl0);
        }
        (node, ret)
    }
}

/// The node built when a split separates the two hashes: the old bucket in
/// cell `ob`, a fresh one-payload bucket in cell `idx`, all else empty.
proof fn lemma_split_two<S: BuildHash>(
    h: S,
    node: NodePtr,
    d: Data,
    nd: Data,
    shift: u64,
    ob: int,
    idx: int,
    k: u64,
    pl: Payload,
)
    requires
        node matches NodePtr::Inner(n) && n.cells.len() == 16 && n.cells[ob] == NodePtr::Data(d)
            && n.cells[idx] == NodePtr::Data(nd) && (forall|j: int|
            0 <= j < 16 && j != ob && j != idx ==> n.cells[j] is Null),
        0 <= ob < 16,
        0 <= idx < 16,
        ob != idx,
        shift < 64,
        shift % 4 == 0,
        bucket_model(d).len() == 1,
        bucket_model(d)[0].spec_key() != k,
        slot(h, shift, bucket_model(d)[0].spec_key()) == ob,
        slot(h, shift, k) == idx,
        seq_key_map(bucket_model(nd)) == Map::<u64, Payload>::empty().insert(k, pl),
        bucket_model(nd).len() == 1,
        pl.spec_key() == k,
    ensures
        ptr_wf(h, node, shift),
        ptr_map(node) == seq_key_map(bucket_model(d)).insert(k, pl),
{
    let n = node->Inner_0;
    let s = bucket_model(d);
    let m = seq_key_map(s);
    let okey = s[0].spec_key();
    lemma_seq_key_map_singleton(s);
    // per-cell key discipline
    assert forall|j: int| 0 <= j < 16 implies cell_keys_ok(h, #[trigger] n.cells[j], shift, j) by {
        if j == ob {
            assert forall|k2: u64| ptr_map(n.cells[j]).contains_key(k2) implies slot(h, shift, k2)
                == j by {
                assert(k2 == okey);
            }
        } else if j == idx {
            assert forall|k2: u64| ptr_map(n.cells[j]).contains_key(k2) implies slot(h, shift, k2)
                == j by {
                assert(k2 == k);
            }
        } else {
            assert(ptr_map(n.cells[j]) == Map::<u64, Payload>::empty());
        }
    }
    assert(inner_cells_ok(h, n.cells, shift));
    // well-formedness of each cell
    assert forall|j: int| 0 <= j < 16 implies ptr_wf(h, #[trigger] n.cells[j], (shift + 4) as u64)
        by {
        if j == ob {
            assert(keys_distinct(s));
        } else if j == idx {
            assert(keys_distinct(bucket_model(nd)));
        }
    }
    assert(!(n.cells[ob] is Null));
    assert(ptr_wf(h, node, shift));
    // the represented mapping
    let m2 = cells_map(n.cells, 0);
    let mi = m.insert(k, pl);
    assert forall|k2: u64| m2.dom().contains(k2) == mi.dom().contains(k2) by {
        lemma_slot_range(h, shift, k2);
        lemma_cells_map_lookup(h, n.cells, shift, k2, 0);
        if k2 == k {
        } else if k2 == okey {
        } else {
            let t2 = slot(h, shift, k2);
            if t2 == ob {
                assert(!ptr_map(n.cells[t2]).contains_key(k2));
            } else if t2 == idx {
                assert(!ptr_map(n.cells[t2]).contains_key(k2));
            } else {
                assert(ptr_map(n.cells[t2]) == Map::<u64, Payload>::empty());
            }
        }
    }
    assert(m2.dom() =~= mi.dom());
    assert forall|k2: u64| m2.dom().contains(k2) implies m2[k2] == mi[k2] by {
        lemma_slot_range(h, shift, k2);
        lemma_cells_map_lookup(h, n.cells, shift, k2, 0);
    }
    assert(m2 =~= mi);
    assert(ptr_map(node) == m2);
}

/// The node built when a split does not yet separate the two hashes: a
/// single child in cell `ob` carrying the combined mapping.
proof fn lemma_split_chain<S: BuildHash>(
    h: S,
    node: NodePtr,
    child: NodePtr,
    d: Data,
    shift: u64,
    ob: int,
    k: u64,
    pl: Payload,
)
    requires
        node matches NodePtr::Inner(n) && n.cells.len() == 16 && n.cells[ob] == child && (
        forall|j: int| 0 <= j < 16 && j != ob ==> n.cells[j] is Null),
        0 <= ob < 16,
        shift < 64,
        shift % 4 == 0,
        bucket_model(d).len() == 1,
        bucket_model(d)[0].spec_key() != k,
        slot(h, shift, bucket_model(d)[0].spec_key()) == ob,
        slot(h, shift, k) == ob,
        ptr_wf(h, child, (shift + 4) as u64),
        !(child is Null),
        ptr_map(child) == seq_key_map(bucket_model(d)).insert(k, pl),
        pl.spec_key() == k,
    ensures
        ptr_wf(h, node, shift),
        ptr_map(node) == seq_key_map(bucket_model(d)).insert(k, pl),
{
    let n = node->Inner_0;
    let s = bucket_model(d);
    let m = seq_key_map(s);
    let okey = s[0].spec_key();
    lemma_seq_key_map_singleton(s);
    assert forall|j: int| 0 <= j < 16 implies cell_keys_ok(h, #[trigger] n.cells[j], shift, j) by {
        if j == ob {
            assert forall|k2: u64| ptr_map(n.cells[j]).contains_key(k2) implies slot(h, shift, k2)
                == j by {
                assert(k2 == k || k2 == okey);
            }
        } else {
            assert(ptr_map(n.cells[j]) == Map::<u64, Payload>::empty());
        }
    }
    assert(inner_cells_ok(h, n.cells, shift));
    assert forall|j: int| 0 <= j < 16 implies ptr_wf(h, #[trigger] n.cells[j], (shift + 4) as u64)
        by {}
    assert(!(n.cells[ob] is Null));
    assert(ptr_wf(h, node, shift));
    lemma_cells_map_single(n.cells, 0, ob);
    assert(ptr_map(node) == ptr_map(child));
}


/// The unified insert / get-or-insert traversal from one cell down.
/// Returns the cell's replacement and what the operation hands back.
#[verifier::rlimit(60)]
fn traverse_at<S: BuildHash, F: FnOnce(u64) -> Payload>(
    h: &S,
    p: NodePtr,
    shift: u64,
    hash: u64,
    state: TraverseState<F>,
    mode: TraverseMode,
) -> (r: (NodePtr, Option<Payload>))
    requires
        ptr_wf(*h, p, shift),
        !(state is Empty),
        state.spec_ok(),
        hash == h.spec_hash(state.spec_key()),
        shift % 4 == 0,
        shift <= 64,
    ensures
        ptr_wf(*h, r.0, shift),
        !(r.0 is Null),
        ptr_map(p).contains_key(state.spec_key()) ==> r.1 == Some(
            ptr_map(p)[state.spec_key()],
        ),
        ptr_map(p).contains_key(state.spec_key()) && mode is IfMissing ==> ptr_map(r.0)
            == ptr_map(p),
        !ptr_map(p).contains_key(state.spec_key()) || mode is Overwrite ==> (exists|pl: Payload|
            #[trigger] state.spec_result(pl) && ptr_map(r.0) == ptr_map(p).insert(
                state.spec_key(),
                pl,
            )),
        !ptr_map(p).contains_key(state.spec_key()) ==> match mode {
            TraverseMode::Overwrite => r.1 is None,
            TraverseMode::IfMissing => r.1 is Some,
        },
        !ptr_map(p).contains_key(state.spec_key()) && mode is IfMissing ==> state.spec_result(
            r.1->Some_0,
        ) && ptr_map(r.0) == ptr_map(p).insert(state.spec_key(), r.1->Some_0),
    decreases p,
{
    let ghost p0 = p;
    let ghost st0 = state;
    let ghost k = state.spec_key();
    match p {
        NodePtr::Null => {
            // empty cell: publish a fresh one-payload bucket
            let mut st = state;
            let pl = st.payload();
            let mut nd = data_new();
            data_push(&mut nd, pl);
            let ret = st.into_return(mode);
            proof {
                lemma_seq_key_map_singleton(bucket_model(nd));
                assert(ptr_map(p0) == Map::<u64, Payload>::empty());
                assert(ptr_map(NodePtr::Data(nd)) == ptr_map(p0).insert(k, pl));
                assert(st0.spec_result(pl));
                if mode is IfMissing {
                    assert(ret is Some && ret->Some_0 == pl);
                }
            }
            (NodePtr::Data(nd), ret)
        },
        NodePtr::Data(d) => {
            let klen = data_len(&d);
            let key = state.key();
            let ghost m = seq_key_map(bucket_model(d));
            proof {
                assert(ptr_map(p0) == m);
            }
            if klen == 1 && shift < 64 {
                let lone = data_get(&d, 0);
                if *lone.key() != key {
                    // a lone bucket with a different key: push it down
                    proof {
                        lemma_seq_key_map_contains(bucket_model(d), k);
                        assert(!m.contains_key(k));
                    }
                    let rr = split_insert(h, d, shift, hash, state, mode);
                    proof {
                        if mode is IfMissing {
                            assert(rr.1 is Some);
                            assert(st0.spec_result(rr.1->Some_0));
                            assert(ptr_map(rr.0) == m.insert(k, rr.1->Some_0));
                        }
                    }
                    return rr;
                }
            }
            // same key, a collision bucket, or the hash is exhausted:
            // rewrite the bucket copy-on-write
            let (mut nd, old) = bucket_filtered(&d, key);
            let overwrite = match mode {
                TraverseMode::Overwrite => true,
                TraverseMode::IfMissing => false,
            };
            if old.is_none() || overwrite {
                let mut st = state;
                let pl = st.payload();
                data_push(&mut nd, pl);
                proof {
                    let f = bucket_model(nd).drop_last();
                    assert(f == seq_filter_out(bucket_model(d), k));
                    lemma_seq_key_map_contains(f, k);
                    assert(forall|i: int| 0 <= i < f.len() ==> f[i].spec_key() != k) by {
                        lemma_seq_filter_out(bucket_model(d), k);
                    }
                    assert(keys_distinct(bucket_model(nd)));
                    assert(bucket_model(nd).last() == pl);
                    assert(seq_key_map(bucket_model(nd)) == seq_key_map(f).insert(k, pl));
                    assert(seq_key_map(bucket_model(nd)) =~= m.insert(k, pl));
                }
                proof {
                    assert(ptr_map(NodePtr::Data(nd)) == m.insert(k, pl));
                }
                match old {
                    Some(op) => (NodePtr::Data(nd), Some(op)),
                    None => {
                        let ret = st.into_return(mode);
                        proof {
                            assert(st0.spec_result(pl));
                            if mode is IfMissing {
                                assert(ret is Some && ret->Some_0 == pl);
                            }
                        }
                        (NodePtr::Data(nd), ret)
                    },
                }
            } else {
                // the key is present and the caller keeps it: hand it back
                proof {
                    assert(NodePtr::Data(d) == p0);
                }
                (NodePtr::Data(d), old)
            }
        },
        NodePtr::Inner(n) => {
            let idx: usize = ((hash >> shift) & 15) as usize;
            proof {
                lemma_slot_range(*h, shift, k);
                assert(idx as int == slot(*h, shift, k));
            }
            let inner = *n;
            let mut cells = inner.cells;
            let ghost cells0 = cells;
            let child = take_cell(&mut cells, idx);
            let ghost c0 = child;
            proof {
                assert(ptr_wf(*h, child, (shift + 4) as u64));
                assert(cell_keys_ok(*h, cells0[idx as int], shift, idx as int));
                lemma_cells_map_lookup(*h, cells0, shift, k, 0);
            }
            let (nc, ret) = traverse_at(h, child, shift + 4, hash, state, mode);
            set_cell(&mut cells, idx, nc);
            proof {
                assert(cells@ =~= cells0@.update(idx as int, nc));
                let m = cells_map(cells0, 0);
                let mc = ptr_map(c0);
                // whatever came back stores only keys that select this cell
                let pl = if mc.contains_key(k) && mode is IfMissing {
                    mc[k]
                } else {
                    choose|pl: Payload|
                        st0.spec_result(pl) && ptr_map(nc) == mc.insert(k, pl)
                };
                assert(ptr_map(nc) == mc.insert(k, pl)) by {
                    if mc.contains_key(k) && mode is IfMissing {
                        assert(mc =~= mc.insert(k, mc[k]));
                    }
                }
                assert(cell_keys_ok(*h, nc, shift, idx as int)) by {
                    assert forall|k2: u64| ptr_map(nc).contains_key(k2) implies slot(
                        *h,
                        shift,
                        k2,
                    ) == idx as int by {
                        if k2 != k {
                            assert(mc.contains_key(k2));
                        }
                    }
                }
                lemma_cells_map_update_insert(*h, cells0, cells, shift, idx as int, k, pl);
                assert(ptr_map(p0) == m);
                if mc.contains_key(k) {
                    assert(m.contains_key(k) && m[k] == mc[k]);
                    if mode is IfMissing {
                        assert(cells_map(cells, 0) =~= m);
                    }
                } else {
                    assert(!m.contains_key(k));
                }
            }
            let node = NodePtr::Inner(Box::new(Inner { cells }));
            proof {
                assert(ptr_map(node) == cells_map(cells, 0));
                assert forall|j: int|
                    0 <= j < 16 implies ptr_wf(*h, #[trigger] node->Inner_0.cells[j], (shift
                    + 4) as u64) by {
                    if j != idx as int {
                        assert(node->Inner_0.cells[j] == cells0[j]);
                    }
                }
                assert(!(node->Inner_0.cells[idx as int] is Null));
                assert(ptr_wf(*h, node, shift));
                let m = cells_map(cells0, 0);
                let mc = ptr_map(c0);
                if !mc.contains_key(k) && mode is IfMissing {
                    assert(ret is Some);
                    let q = ret->Some_0;
                    assert(ptr_map(nc) == mc.insert(k, q));
                    let pl = choose|pl: Payload|
                        st0.spec_result(pl) && ptr_map(nc) == mc.insert(k, pl);
                    assert(mc.insert(k, pl)[k] == pl);
                    assert(mc.insert(k, q)[k] == q);
                    assert(pl == q);
                    assert(ptr_map(node) == m.insert(k, q));
                }
            }
            (node, ret)
        },
    }
}

/// Prune an inner node whose cell is being cleaned up: decide between
/// removing it outright, contracting the edge to its lone leaf bucket, and
/// keeping an equivalent clean node.
fn prune<S: BuildHash>(h: &S, child: Box<Inner>, shift: u64) -> (r: (NodePtr, PruneResult))
    requires
        shift <= 60,
        shift % 4 == 0,
        child.cells.len() == 16,
        forall|j: int| 0 <= j < 16 ==> ptr_wf(*h, #[trigger] child.cells[j], (shift + 4) as u64),
        inner_cells_ok(*h, child.cells, shift),
    ensures
        ptr_wf(*h, r.0, shift),
        ptr_map(r.0) == cells_map(child.cells, 0),
        (r.0 is Null) <==> (ptr_map(r.0) == Map::<u64, Payload>::empty()),
        r.1 is Copy ==> r.0 is Inner,
{
    let ghost cells0 = child.cells;
    let mut cnt: usize = 0;
    let mut nn_at: usize = 0;
    let mut allow_contract = true;
    let mut j: usize = 0;
    while j < 16
        invariant
            child.cells == cells0,
            cells0.len() == 16,
            0 <= j <= 16,
            cnt <= j,
            cnt == 0 ==> forall|l: int| 0 <= l < j ==> cells0[l] is Null,
            cnt == 1 ==> 0 <= nn_at < j && !(cells0[nn_at as int] is Null) && (forall|l: int|
                0 <= l < j && l != nn_at ==> cells0[l] is Null),
            cnt >= 1 ==> 0 <= nn_at < j && !(cells0[nn_at as int] is Null),
            allow_contract <==> (forall|l: int| 0 <= l < j ==> !(cells0[l] is Inner)),
        decreases 16 - j,
    {
        match &child.cells[j] {
            NodePtr::Null => {},
            NodePtr::Data(_) => {
                cnt = cnt + 1;
                nn_at = j;
            },
            NodePtr::Inner(_) => {
                cnt = cnt + 1;
                nn_at = j;
                allow_contract = false;
            },
        }
        j += 1;
    }
    if allow_contract && cnt == 1 {
        // exactly one child and it is a leaf: contract the edge to it
        let inner = *child;
        let mut cells = inner.cells;
        let l = take_cell(&mut cells, nn_at);
        proof {
            lemma_cells_map_single(cells0, 0, nn_at as int);
            assert(!(l is Inner) && !(l is Null));
            assert(ptr_wf(*h, l, (shift + 4) as u64));
            lemma_wf_nonempty(*h, l, (shift + 4) as u64);
            let kw = choose|kw: u64| ptr_map(l).contains_key(kw);
            assert(ptr_map(l) != Map::<u64, Payload>::empty());
        }
        (l, PruneResult::Singleton)
    } else if cnt == 0 {
        // nothing below: the cell becomes null
        proof {
            lemma_cells_map_all_null(cells0, 0);
        }
        (NodePtr::Null, PruneResult::Null)
    } else {
        // several children, or a lone inner child whose edge must not be
        // contracted; with sole access the clean copy is the node itself
        let node = NodePtr::Inner(child);
        proof {
            assert(!(node->Inner_0.cells[nn_at as int] is Null));
            assert(ptr_wf(*h, node, shift));
            lemma_wf_nonempty(*h, cells0[nn_at as int], (shift + 4) as u64);
            let kw = choose|kw: u64| ptr_map(cells0[nn_at as int]).contains_key(kw);
            lemma_cells_map_contains(cells0, 0, kw);
            assert(cells_map(cells0, 0).contains_key(kw));
            assert(ptr_map(node) != Map::<u64, Payload>::empty());
        }
        (node, PruneResult::Copy)
    }
}

/// Remove the key from the subtree beneath a cell.  Returns the cell's
/// replacement, the removed payload, and whether the caller may keep
/// pruning levels further up.
fn remove_at<S: BuildHash>(h: &S, p: NodePtr, shift: u64, hash: u64, key: u64) -> (r: (
    NodePtr,
    Option<Payload>,
    bool,
))
    requires
        ptr_wf(*h, p, shift),
        hash == h.spec_hash(key),
        shift % 4 == 0,
        shift <= 64,
    ensures
        ptr_wf(*h, r.0, shift),
        ptr_map(r.0) == ptr_map(p).remove(key),
        (r.0 is Null) <==> (ptr_map(r.0) == Map::<u64, Payload>::empty()),
        match r.1 {
            Some(pl) => ptr_map(p).contains_key(key) && pl == ptr_map(p)[key],
            None => !ptr_map(p).contains_key(key),
        },
        !r.2 ==> r.0 is Inner,
    decreases p,
{
    let ghost p0 = p;
    match p {
        NodePtr::Null => {
            proof {
                assert(ptr_map(p0).remove(key) =~= Map::<u64, Payload>::empty());
            }
            (NodePtr::Null, None, true)
        },
        NodePtr::Data(d) => {
            let ghost s = bucket_model(d);
            let ghost m = seq_key_map(s);
            let (nd, removed) = bucket_filtered(&d, key);
            match removed {
                None => {
                    proof {
                        assert(m.remove(key) =~= m);
                        lemma_seq_key_map_contains(s, s.last().spec_key());
                        assert(s[s.len() - 1].spec_key() == s.last().spec_key());
                        assert(m.contains_key(s.last().spec_key()));
                        assert(m != Map::<u64, Payload>::empty());
                    }
                    (NodePtr::Data(d), None, true)
                },
                Some(pl) => {
                    let nlen = data_len(&nd);
                    if nlen == 0 {
                        proof {
                            assert(bucket_model(nd) =~= Seq::<Payload>::empty());
                            assert(seq_key_map(bucket_model(nd)) == Map::<u64, Payload>::empty());
                            assert(m.remove(key) == Map::<u64, Payload>::empty());
                        }
                        (NodePtr::Null, Some(pl), true)
                    } else {
                        proof {
                            let f = bucket_model(nd);
                            lemma_seq_key_map_contains(f, f.last().spec_key());
                            assert(f[f.len() - 1].spec_key() == f.last().spec_key());
                            assert(seq_key_map(f) != Map::<u64, Payload>::empty());
                        }
                        (NodePtr::Data(nd), Some(pl), true)
                    }
                },
            }
        },
        NodePtr::Inner(n) => {
            let idx: usize = ((hash >> shift) & 15) as usize;
            proof {
                lemma_slot_range(*h, shift, key);
                assert(idx as int == slot(*h, shift, key));
            }
            let inner = *n;
            let mut cells = inner.cells;
            let ghost cells0 = cells;
            let child = take_cell(&mut cells, idx);
            let ghost c0 = child;
            proof {
                assert(ptr_wf(*h, child, (shift + 4) as u64));
                assert(cell_keys_ok(*h, cells0[idx as int], shift, idx as int));
                lemma_cells_map_lookup(*h, cells0, shift, key, 0);
            }
            let (nc, removed, keep_pruning) = remove_at(h, child, shift + 4, hash, key);
            set_cell(&mut cells, idx, nc);
            let ghost m = cells_map(cells0, 0);
            proof {
                assert(cells@ =~= cells0@.update(idx as int, nc));
                assert(cell_keys_ok(*h, nc, shift, idx as int)) by {
                    assert forall|k2: u64| ptr_map(nc).contains_key(k2) implies slot(
                        *h,
                        shift,
                        k2,
                    ) == idx as int by {
                        assert(ptr_map(c0).contains_key(k2));
                    }
                }
                lemma_cells_map_update_remove(*h, cells0, cells, shift, idx as int, key);
                assert(cells_map(cells, 0) == m.remove(key));
                assert(ptr_map(p0) == m);
            }
            // reassemble the node and see whether it can be pruned
            let node_box = Box::new(Inner { cells });
            proof {
                assert forall|j: int|
                    0 <= j < 16 implies ptr_wf(*h, #[trigger] node_box.cells[j], (shift
                    + 4) as u64) by {
                    if j != idx as int {
                        assert(node_box.cells[j] == cells0[j]);
                    }
                }
            }
            if removed.is_none() {
                proof {
                    assert(!m.contains_key(key));
                    assert(m.remove(key) =~= m);
                    lemma_wf_nonempty(*h, p0, shift);
                    let kw = choose|kw: u64| ptr_map(p0).contains_key(kw);
                    assert(m != Map::<u64, Payload>::empty());
                    let jw = choose|j: int| 0 <= j < 16 && !(cells0[j] is Null);
                    assert(!(cells0[jw] is Null));
                    if jw == idx as int {
                        lemma_wf_nonempty(*h, c0, (shift + 4) as u64);
                        let kc = choose|kc: u64| ptr_map(c0).contains_key(kc);
                        assert(!ptr_map(c0).contains_key(key));
                        assert(ptr_map(c0).remove(key) =~= ptr_map(c0));
                        assert(ptr_map(nc).contains_key(kc));
                        assert(ptr_map(nc) != Map::<u64, Payload>::empty());
                        assert(!(nc is Null));
                        assert(!(node_box.cells[jw] is Null));
                    } else {
                        assert(!(node_box.cells[jw] is Null));
                    }
                }
                let node = NodePtr::Inner(node_box);
                proof {
                    assert(ptr_wf(*h, node, shift));
                    assert(ptr_map(node) == m.remove(key));
                }
                return (node, None, true);
            }
            if !keep_pruning {
                // a level below replaced itself with a clean copy: the
                // upward walk has ended there
                proof {
                    assert(nc is Inner);
                    assert(ptr_map(nc) != Map::<u64, Payload>::empty());
                    assert(exists|kc: u64| ptr_map(nc).contains_key(kc)) by {
                        if !(exists|kc: u64| ptr_map(nc).contains_key(kc)) {
                            assert(ptr_map(nc) =~= Map::<u64, Payload>::empty());
                        }
                    }
                    let kc = choose|kc: u64| ptr_map(nc).contains_key(kc);
                    assert(node_box.cells[idx as int] == nc);
                    assert(ptr_map(node_box.cells[idx as int]).contains_key(kc));
                    lemma_cells_map_contains(node_box.cells, 0, kc);
                    assert(cells_map(node_box.cells, 0).contains_key(kc));
                }
                let node = NodePtr::Inner(node_box);
                proof {
                    assert(ptr_wf(*h, node, shift));
                }
                return (node, removed, false);
            }
            // cheap check first: with more than one occupied cell nothing
            // here (nor above) can collapse
            let mut cnt: usize = 0;
            let mut nn_at: usize = 0;
            let mut j: usize = 0;
            while j < 16
                invariant
                    node_box.cells.len() == 16,
                    0 <= j <= 16,
                    cnt <= j,
                    cnt == 0 ==> forall|l: int| 0 <= l < j ==> node_box.cells[l] is Null,
                    cnt >= 1 ==> 0 <= nn_at < j && !(node_box.cells[nn_at as int] is Null),
                    cnt >= 2 ==> exists|l1: int, l2: int|
                        0 <= l1 < l2 < j && !(node_box.cells[l1] is Null) && !(
                        node_box.cells[l2] is Null),
                decreases 16 - j,
            {
                let occupied = match &node_box.cells[j] {
                    NodePtr::Null => false,
                    _ => true,
                };
                if occupied {
                    proof {
                        if cnt >= 1 {
                            assert(!(node_box.cells[nn_at as int] is Null) && !(
                            node_box.cells[j as int] is Null) && nn_at < j);
                        }
                    }
                    cnt = cnt + 1;
                    nn_at = j;
                }
                j += 1;
            }
            if cnt > 1 {
                proof {
                    lemma_wf_nonempty(*h, node_box.cells[nn_at as int], (shift + 4) as u64);
                    let kc = choose|kc: u64|
                        ptr_map(node_box.cells[nn_at as int]).contains_key(kc);
                    lemma_cells_map_contains(node_box.cells, 0, kc);
                    assert(cells_map(node_box.cells, 0).contains_key(kc));
                }
                let node = NodePtr::Inner(node_box);
                proof {
                    assert(!(node->Inner_0.cells[nn_at as int] is Null));
                    assert(ptr_wf(*h, node, shift));
                    assert(ptr_map(node) != Map::<u64, Payload>::empty());
                }
                return (node, removed, false);
            }
            let (np, outcome) = prune(h, node_box, shift);
            let cont = match outcome {
                PruneResult::Copy => false,
                _ => true,
            };
            (np, removed, cont)
        },
    }
}


/// Filler for the constructor slot of a traversal that already carries a
/// built payload; such a traversal never invokes it.
fn prebuilt(key: u64) -> (pl: Payload)
    ensures
        pl.spec_key() == key,
{
    Leaf::new(key, 0)
}

/// The trie container: a root cell and the hash builder every operation
/// consults.  Its view is the mapping from keys to stored payloads.
pub struct Raw<S> {
    hash_builder: S,
    root: NodePtr,
}

impl<S: BuildHash> View for Raw<S> {
    type V = Map<u64, Payload>;

    closed spec fn view(&self) -> Map<u64, Payload> {
        ptr_map(self.root)
    }
}

impl<S: BuildHash> Raw<S> {
    /// The container's invariants: the tree beneath the root is well
    /// formed, and the root is null exactly when nothing is stored (kept
    /// true by pruning on removal).
    pub closed spec fn wf(self) -> bool {
        &&& ptr_wf(self.hash_builder, self.root, 0)
        &&& (self.root is Null <==> ptr_map(self.root) == Map::<u64, Payload>::empty())
    }

    /// An empty container using the given hash builder.
    pub fn with_hasher(hash_builder: S) -> (t: Self)
        ensures
            t.wf(),
            t@ == Map::<u64, Payload>::empty(),
    {
        Self { hash_builder, root: NodePtr::Null }
    }

    /// The hash of a key, as the container's hash builder computes it.
    fn hash(&self, key: u64) -> (h: u64)
        ensures
            h == self.hash_builder.spec_hash(key),
    {
        self.hash_builder.hash_key(key)
    }

    /// The unified traversal: insert the state's payload under its key, or
    /// hand back the payload already stored there, depending on the mode.
    fn traverse<F: FnOnce(u64) -> Payload>(
        &mut self,
        state: TraverseState<F>,
        mode: TraverseMode,
    ) -> (r: Option<Payload>)
        requires
            old(self).wf(),
            !(state is Empty),
            state.spec_ok(),
        ensures
            final(self).wf(),
            old(self)@.contains_key(state.spec_key()) ==> r == Some(
                old(self)@[state.spec_key()],
            ),
            old(self)@.contains_key(state.spec_key()) && mode is IfMissing ==> final(self)@
                == old(self)@,
            !old(self)@.contains_key(state.spec_key()) || mode is Overwrite ==> (exists|
                pl: Payload,
            | #[trigger]
                state.spec_result(pl) && final(self)@ == old(self)@.insert(
                    state.spec_key(),
                    pl,
                )),
            !old(self)@.contains_key(state.spec_key()) ==> match mode {
                TraverseMode::Overwrite => r is None,
                TraverseMode::IfMissing => r is Some,
            },
            !old(self)@.contains_key(state.spec_key()) && mode is IfMissing ==> state.spec_result(
                r->Some_0,
            ) && final(self)@ == old(self)@.insert(state.spec_key(), r->Some_0),
    {
        let hash = self.hash(state.key());
        let mut root = NodePtr::Null;
        core::mem::swap(&mut self.root, &mut root);
        let ghost st0 = state;
        let ghost k = state.spec_key();
        let ghost m = ptr_map(root);
        let (nr, ret) = traverse_at(&self.hash_builder, root, 0, hash, state, mode);
        self.root = nr;
        proof {
            // a traversal leaves the mapping non-empty, so the root is not
            // null exactly when it should not be
            if m.contains_key(k) && mode is IfMissing {
                assert(ptr_map(nr).contains_key(k));
            } else {
                let pl = choose|pl: Payload|
                    st0.spec_result(pl) && ptr_map(nr) == m.insert(k, pl);
                assert(ptr_map(nr) == m.insert(k, pl));
                assert(ptr_map(nr).contains_key(k));
            }
            assert(ptr_map(nr) != Map::<u64, Payload>::empty());
        }
        ret
    }

    /// Insert the payload under its own key; hand back the payload it
    /// displaced, if the key was already present.
    pub fn insert(&mut self, payload: Payload) -> (r: Option<Payload>)
        requires
            old(self).wf(),
        ensures
            final(self).wf(),
            final(self)@ == old(self)@.insert(payload.spec_key(), payload),
            match r {
                Some(pl) => old(self)@.contains_key(payload.spec_key()) && pl == old(
                    self,
                )@[payload.spec_key()],
                None => !old(self)@.contains_key(payload.spec_key()),
            },
    {
        let mut state = TraverseState::Future { key: 0u64, constructor: prebuilt };
        state = TraverseState::Created(payload);
        let ghost st0 = state;
        let r = self.traverse(state, TraverseMode::Overwrite);
        proof {
            let pl = choose|pl: Payload|
                st0.spec_result(pl) && self@ == old(self)@.insert(payload.spec_key(), pl);
            assert(pl == payload);
        }
        r
    }

    /// Look the key up and hand back a copy of its payload.
    pub fn get(&self, key: u64) -> (r: Option<Payload>)
        requires
            self.wf(),
        ensures
            match r {
                Some(pl) => self@.contains_key(key) && pl == self@[key],
                None => !self@.contains_key(key),
            },
    {
        let hash = self.hash(key);
        get_at(&self.hash_builder, &self.root, 0, hash, key)
    }

    /// Hand back the payload stored under `key`, or build one with
    /// `create`, insert it, and hand that back.
    pub fn get_or_insert_with<F: FnOnce(u64) -> Payload>(&mut self, key: u64, create: F) -> (r:
        Payload)
        requires
            old(self).wf(),
            call_requires(create, (key,)),
            forall|pl: Payload| call_ensures(create, (key,), pl) ==> pl.spec_key() == key,
        ensures
            final(self).wf(),
            r.spec_key() == key,
            old(self)@.contains_key(key) ==> r == old(self)@[key] && final(self)@ == old(self)@,
            !old(self)@.contains_key(key) ==> call_ensures(create, (key,), r) && final(self)@
                == old(self)@.insert(key, r),
    {
        proof {
            old(self).lemma_payload_keys();
        }
        let state = TraverseState::Future { key, constructor: create };
        let ret = self.traverse(state, TraverseMode::IfMissing);
        match ret {
            Some(pl) => pl,
            None => unreached(),
        }
    }

    /// Remove the key and hand back the payload that was stored under it.
    pub fn remove(&mut self, key: u64) -> (r: Option<Payload>)
        requires
            old(self).wf(),
        ensures
            final(self).wf(),
            final(self)@ == old(self)@.remove(key),
            match r {
                Some(pl) => old(self)@.contains_key(key) && pl == old(self)@[key],
                None => !old(self)@.contains_key(key),
            },
    {
        let hash = self.hash(key);
        let mut root = NodePtr::Null;
        core::mem::swap(&mut self.root, &mut root);
        let (nr, removed, _deep) = remove_at(&self.hash_builder, root, 0, hash, key);
        self.root = nr;
        removed
    }

    /// Whether nothing is stored: a constant-time test of the root cell,
    /// relying on removal pruning emptied branches away.
    pub fn is_empty(&self) -> (r: bool)
        requires
            self.wf(),
        ensures
            r <==> self@ == Map::<u64, Payload>::empty(),
    {
        match &self.root {
            NodePtr::Null => true,
            _ => false,
        }
    }

    /// Every payload sits under its own key: looking up the key of any
    /// stored payload finds exactly that payload.
    pub proof fn lemma_payload_keys(&self)
        requires
            self.wf(),
        ensures
            forall|k: u64| #[trigger] self@.contains_key(k) ==> self@[k].spec_key() == k,
    {
        lemma_wf_map_keys(self.hash_builder, self.root, 0);
    }
}

} // verus!
