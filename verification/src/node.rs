//! Trie nodes and their mathematical model.
//!
//! A cell of the trie holds one of three things, which the engine tells
//! apart the way a tagged pointer word would: nothing (`Null`), a leaf
//! bucket of payloads (`Data`), or an inner node with a fixed fan-out of
//! sixteen further cells (`Inner`).
//!
//! The model of a cell is the mapping from keys to payloads stored beneath
//! it (`ptr_map`); well-formedness (`ptr_wf`) pins down the structural
//! invariants: buckets are never empty and hold distinct keys, inner nodes
//! have exactly sixteen cells and at least one occupied one, and every key
//! below cell `j` of an inner node at shift `s` has hash bits `s..s+4`
//! equal to `j`.

use vstd::prelude::*;

use crate::bucket::{
    Data, bucket_model, keys_distinct, lemma_seq_key_map_contains, lemma_seq_key_map_key,
    seq_key_map,
};
use crate::hash::BuildHash;
use crate::raw::Payload;

verus! {

/// One cell of the trie: empty, a leaf bucket, or an inner node.
pub(crate) enum NodePtr {
    Null,
    Data(Data),
    Inner(Box<Inner>),
}

/// An inner node: a fixed array of sixteen cells, one per value of the
/// four hash bits consumed at this level.
pub(crate) struct Inner {
    pub(crate) cells: Vec<NodePtr>,
}

/// The cell index the hash of `k` selects at the given shift.
pub(crate) open spec fn slot<S: BuildHash>(h: S, shift: u64, k: u64) -> int {
    ((h.spec_hash(k) >> shift) & 15) as int
}

/// Every key stored beneath `c` selects cell `j` at this shift.
pub(crate) open spec fn cell_keys_ok<S: BuildHash>(h: S, c: NodePtr, shift: u64, j: int) -> bool {
    forall|k: u64| ptr_map(c).contains_key(k) ==> slot(h, shift, k) == j
}

/// Every cell of the array only stores keys that select it.
pub(crate) open spec fn inner_cells_ok<S: BuildHash>(h: S, cells: Vec<NodePtr>, shift: u64) -> bool {
    forall|j: int| 0 <= j < cells.len() ==> cell_keys_ok(h, #[trigger] cells[j], shift, j)
}

/// The mapping from keys to payloads stored beneath a cell.
pub(crate) open spec fn ptr_map(p: NodePtr) -> Map<u64, Payload>
    decreases p, 0int,
{
    match p {
        NodePtr::Null => Map::empty(),
        NodePtr::Data(d) => seq_key_map(bucket_model(d)),
        NodePtr::Inner(n) => cells_map(n.cells, 0),
    }
}

/// The union of the mappings beneath `cells[i..]`.
pub(crate) open spec fn cells_map(cells: Vec<NodePtr>, i: int) -> Map<u64, Payload>
    decreases cells, cells.len() - i,
{
    if 0 <= i < cells.len() {
        ptr_map(cells[i]).union_prefer_right(cells_map(cells, i + 1))
    } else {
        Map::empty()
    }
}

/// Structural well-formedness of the subtree beneath a cell sitting at the
/// given shift (number of hash bits consumed above it).
pub(crate) open spec fn ptr_wf<S: BuildHash>(h: S, p: NodePtr, shift: u64) -> bool
    decreases p,
{
    match p {
        NodePtr::Null => true,
        NodePtr::Data(d) => {
            &&& shift <= 64
            &&& bucket_model(d).len() >= 1
            &&& keys_distinct(bucket_model(d))
        },
        NodePtr::Inner(n) => {
            &&& shift <= 60
            &&& n.cells.len() == 16
            &&& (forall|j: int|
                0 <= j < 16 ==> ptr_wf(h, #[trigger] n.cells[j], (shift + 4) as u64))
            &&& inner_cells_ok(h, n.cells, shift)
            &&& (exists|j: int| 0 <= j < 16 && !(n.cells[j] is Null))
        },
    }
}

pub(crate) proof fn lemma_slot_range<S: BuildHash>(h: S, shift: u64, k: u64)
    ensures
        0 <= slot(h, shift, k) < 16,
{
    let x = h.spec_hash(k) >> shift;
    assert((x & 15) < 16) by (bit_vector);
}

/// Membership in the union of the cells is membership beneath some cell.
pub(crate) proof fn lemma_cells_map_contains(cells: Vec<NodePtr>, i: int, k: u64)
    requires
        0 <= i <= cells.len(),
    ensures
        cells_map(cells, i).contains_key(k) <==> (exists|j: int|
            i <= j < cells.len() && ptr_map(#[trigger] cells[j]).contains_key(k)),
    decreases cells.len() - i,
{
    if i < cells.len() {
        lemma_cells_map_contains(cells, i + 1, k);
    }
}

/// Under the per-cell key discipline, lookup in the union reduces to
/// lookup beneath the cell the key's hash selects.
pub(crate) proof fn lemma_cells_map_lookup<S: BuildHash>(
    h: S,
    cells: Vec<NodePtr>,
    shift: u64,
    k: u64,
    i: int,
)
    requires
        inner_cells_ok(h, cells, shift),
        0 <= i <= cells.len(),
    ensures
        cells_map(cells, i).contains_key(k) <==> (i <= slot(h, shift, k) < cells.len()
            && ptr_map(cells[slot(h, shift, k)]).contains_key(k)),
        cells_map(cells, i).contains_key(k) ==> cells_map(cells, i)[k] == ptr_map(
            cells[slot(h, shift, k)],
        )[k],
    decreases cells.len() - i,
{
    if i < cells.len() {
        lemma_cells_map_lookup(h, cells, shift, k, i + 1);
        assert(cell_keys_ok(h, cells[i], shift, i));
    }
}

/// If every cell from `i` on is empty, so is their union.
pub(crate) proof fn lemma_cells_map_all_null(cells: Vec<NodePtr>, i: int)
    requires
        0 <= i <= cells.len(),
        forall|j: int| i <= j < cells.len() ==> cells[j] is Null,
    ensures
        cells_map(cells, i) == Map::<u64, Payload>::empty(),
    decreases cells.len() - i,
{
    if i < cells.len() {
        lemma_cells_map_all_null(cells, i + 1);
        assert(cells[i] is Null);
        assert(ptr_map(cells[i]) == Map::<u64, Payload>::empty());
        assert(cells_map(cells, i) == ptr_map(cells[i]).union_prefer_right(
            cells_map(cells, i + 1),
        ));
        assert(cells_map(cells, i) =~= Map::<u64, Payload>::empty());
    }
}

/// If every cell from `i` on except `t` is empty, the union is whatever is
/// beneath `t`.
pub(crate) proof fn lemma_cells_map_single(cells: Vec<NodePtr>, i: int, t: int)
    requires
        0 <= i <= cells.len(),
        0 <= t < cells.len(),
        forall|j: int| i <= j < cells.len() && j != t ==> cells[j] is Null,
    ensures
        cells_map(cells, i) == (if i <= t {
            ptr_map(cells[t])
        } else {
            Map::<u64, Payload>::empty()
        }),
    decreases cells.len() - i,
{
    if i < cells.len() {
        lemma_cells_map_single(cells, i + 1, t);
        assert(cells_map(cells, i) == ptr_map(cells[i]).union_prefer_right(
            cells_map(cells, i + 1),
        ));
        if i == t {
            assert(cells_map(cells, i + 1) == Map::<u64, Payload>::empty());
            assert(cells_map(cells, i) =~= ptr_map(cells[t]));
        } else if i < t {
            assert(cells[i] is Null);
            assert(ptr_map(cells[i]) == Map::<u64, Payload>::empty());
            assert(cells_map(cells, i) =~= ptr_map(cells[t]));
        } else {
            assert(cells[i] is Null);
            assert(ptr_map(cells[i]) == Map::<u64, Payload>::empty());
            assert(cells_map(cells, i) =~= Map::<u64, Payload>::empty());
        }
    }
}

/// Replacing the cell the key selects by one whose mapping has `k` bound
/// to `pl` inserts exactly that binding into the union.
pub(crate) proof fn lemma_cells_map_update_insert<S: BuildHash>(
    h: S,
    cells: Vec<NodePtr>,
    cells2: Vec<NodePtr>,
    shift: u64,
    t: int,
    k: u64,
    pl: Payload,
)
    requires
        cells2.len() == cells.len(),
        0 <= t < cells.len(),
        forall|j: int| 0 <= j < cells.len() && j != t ==> cells2[j] == cells[j],
        inner_cells_ok(h, cells, shift),
        cell_keys_ok(h, cells2[t], shift, t),
        slot(h, shift, k) == t,
        ptr_map(cells2[t]) == ptr_map(cells[t]).insert(k, pl),
    ensures
        inner_cells_ok(h, cells2, shift),
        cells_map(cells2, 0) == cells_map(cells, 0).insert(k, pl),
{
    assert(inner_cells_ok(h, cells2, shift)) by {
        assert forall|j: int| 0 <= j < cells2.len() implies cell_keys_ok(
            h,
            #[trigger] cells2[j],
            shift,
            j,
        ) by {
            if j != t {
                assert(cell_keys_ok(h, cells[j], shift, j));
            }
        }
    }
    let m1 = cells_map(cells, 0);
    let m2 = cells_map(cells2, 0);
    let mi = m1.insert(k, pl);
    assert forall|k2: u64| m2.dom().contains(k2) == mi.dom().contains(k2) by {
        lemma_slot_range(h, shift, k2);
        let t2 = slot(h, shift, k2);
        lemma_cells_map_lookup(h, cells, shift, k2, 0);
        lemma_cells_map_lookup(h, cells2, shift, k2, 0);
        if k2 != k && t2 == t {
            assert(ptr_map(cells2[t]).contains_key(k2) == ptr_map(cells[t]).contains_key(k2));
        }
    }
    assert(m2.dom() =~= mi.dom());
    assert forall|k2: u64| m2.dom().contains(k2) implies m2[k2] == mi[k2] by {
        lemma_slot_range(h, shift, k2);
        let t2 = slot(h, shift, k2);
        lemma_cells_map_lookup(h, cells, shift, k2, 0);
        lemma_cells_map_lookup(h, cells2, shift, k2, 0);
        if k2 != k && t2 == t {
            assert(ptr_map(cells2[t]).contains_key(k2) == ptr_map(cells[t]).contains_key(k2));
            assert(ptr_map(cells2[t])[k2] == ptr_map(cells[t])[k2]);
        }
    }
    assert(m2 =~= mi);
}

/// Replacing the cell the key selects by one whose mapping has `k`
/// removed removes exactly that binding from the union.
pub(crate) proof fn lemma_cells_map_update_remove<S: BuildHash>(
    h: S,
    cells: Vec<NodePtr>,
    cells2: Vec<NodePtr>,
    shift: u64,
    t: int,
    k: u64,
)
    requires
        cells2.len() == cells.len(),
        0 <= t < cells.len(),
        forall|j: int| 0 <= j < cells.len() && j != t ==> cells2[j] == cells[j],
        inner_cells_ok(h, cells, shift),
        cell_keys_ok(h, cells2[t], shift, t),
        slot(h, shift, k) == t,
        ptr_map(cells2[t]) == ptr_map(cells[t]).remove(k),
    ensures
        inner_cells_ok(h, cells2, shift),
        cells_map(cells2, 0) == cells_map(cells, 0).remove(k),
{
    assert(inner_cells_ok(h, cells2, shift)) by {
        assert forall|j: int| 0 <= j < cells2.len() implies cell_keys_ok(
            h,
            #[trigger] cells2[j],
            shift,
            j,
        ) by {
            if j != t {
                assert(cell_keys_ok(h, cells[j], shift, j));
            }
        }
    }
    let m1 = cells_map(cells, 0);
    let m2 = cells_map(cells2, 0);
    let mr = m1.remove(k);
    assert forall|k2: u64| m2.dom().contains(k2) == mr.dom().contains(k2) by {
        lemma_slot_range(h, shift, k2);
        let t2 = slot(h, shift, k2);
        lemma_cells_map_lookup(h, cells, shift, k2, 0);
        lemma_cells_map_lookup(h, cells2, shift, k2, 0);
        if k2 != k && t2 == t {
            assert(ptr_map(cells2[t]).contains_key(k2) == ptr_map(cells[t]).contains_key(k2));
        }
    }
    assert(m2.dom() =~= mr.dom());
    assert forall|k2: u64| m2.dom().contains(k2) implies m2[k2] == mr[k2] by {
        lemma_slot_range(h, shift, k2);
        let t2 = slot(h, shift, k2);
        lemma_cells_map_lookup(h, cells, shift, k2, 0);
        lemma_cells_map_lookup(h, cells2, shift, k2, 0);
        if k2 != k && t2 == t {
            assert(ptr_map(cells2[t]).contains_key(k2) == ptr_map(cells[t]).contains_key(k2));
            assert(ptr_map(cells2[t])[k2] == ptr_map(cells[t])[k2]);
        }
    }
    assert(m2 =~= mr);
}

/// A well-formed non-null cell stores at least one payload.
pub(crate) proof fn lemma_wf_nonempty<S: BuildHash>(h: S, p: NodePtr, shift: u64)
    requires
        ptr_wf(h, p, shift),
        !(p is Null),
    ensures
        exists|k: u64| ptr_map(p).contains_key(k),
    decreases p,
{
    match p {
        NodePtr::Null => {
            assert(false);
        },
        NodePtr::Data(d) => {
            let s = bucket_model(d);
            lemma_seq_key_map_contains(s, s.last().spec_key());
            assert(s[s.len() - 1].spec_key() == s.last().spec_key());
            assert(ptr_map(p).contains_key(s.last().spec_key()));
        },
        NodePtr::Inner(n) => {
            let j = choose|j: int| 0 <= j < 16 && !(n.cells[j] is Null);
            lemma_wf_nonempty(h, n.cells[j], (shift + 4) as u64);
            let k = choose|k: u64| ptr_map(n.cells[j]).contains_key(k);
            assert(ptr_map(n.cells[j]).contains_key(k));
            lemma_cells_map_contains(n.cells, 0, k);
            assert(ptr_map(p).contains_key(k));
        },
    }
}

/// Beneath a well-formed cell, every payload sits under its own key.
pub(crate) proof fn lemma_wf_map_keys<S: BuildHash>(h: S, p: NodePtr, shift: u64)
    requires
        ptr_wf(h, p, shift),
    ensures
        forall|k: u64| #[trigger]
            ptr_map(p).contains_key(k) ==> ptr_map(p)[k].spec_key() == k,
    decreases p,
{
    match p {
        NodePtr::Null => {},
        NodePtr::Data(d) => {
            assert forall|k: u64| #[trigger] ptr_map(p).contains_key(k) implies ptr_map(
                p,
            )[k].spec_key() == k by {
                lemma_seq_key_map_key(bucket_model(d), k);
            }
        },
        NodePtr::Inner(n) => {
            assert forall|k: u64| #[trigger] ptr_map(p).contains_key(k) implies ptr_map(
                p,
            )[k].spec_key() == k by {
                lemma_slot_range(h, shift, k);
                lemma_cells_map_lookup(h, n.cells, shift, k, 0);
                let t = slot(h, shift, k);
                lemma_wf_map_keys(h, n.cells[t], (shift + 4) as u64);
            }
        },
    }
}

/// Build a fresh inner-node cell array: sixteen empty cells.
pub(crate) fn new_cells() -> (c: Vec<NodePtr>)
    ensures
        c.len() == 16,
        forall|j: int| 0 <= j < 16 ==> c[j] is Null,
{
    let mut c: Vec<NodePtr> = Vec::new();
    let mut i: usize = 0;
    while i < 16
        invariant
            i == c.len(),
            i <= 16,
            forall|j: int| 0 <= j < i ==> c[j] is Null,
        decreases 16 - i,
    {
        c.push(NodePtr::Null);
        i += 1;
    }
    c
}

/// Move the contents of cell `i` out, leaving the cell empty.
pub(crate) fn take_cell(cells: &mut Vec<NodePtr>, i: usize) -> (c: NodePtr)
    requires
        i < old(cells).len(),
    ensures
        c == old(cells)[i as int],
        final(cells)@ == old(cells)@.update(i as int, NodePtr::Null),
{
    let c = cells.remove(i);
    cells.insert(i, NodePtr::Null);
    proof {
        assert(final(cells)@ =~= old(cells)@.update(i as int, NodePtr::Null));
    }
    c
}

/// Store `v` into cell `i`.
pub(crate) fn set_cell(cells: &mut Vec<NodePtr>, i: usize, v: NodePtr)
    requires
        i < old(cells).len(),
    ensures
        final(cells)@ == old(cells)@.update(i as int, v),
{
    let _discarded = cells.remove(i);
    cells.insert(i, v);
    proof {
        assert(final(cells)@ =~= old(cells)@.update(i as int, v));
    }
}

} // verus!
