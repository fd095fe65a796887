//! Resource lifecycle and ownership: Component Model resource handles.
//!
//! - `HandleTable<T>`: a generational handle -> value table
//! - drop protocol and borrow counting that prevents premature drop
//! - `OwnHandle<T>` vs `BorrowHandle<T>` type distinction
//! - resource constructors, instance methods and static methods
//! - nested resource ownership
//! - batch drop of handle collections

use vstd::prelude::*;
use std::collections::HashMap;
use std::marker::PhantomData;
use crate::assoc::{keys_distinct, named_entries, named_get, named_keys, named_map, named_put};
use crate::text::{dec, owned, push_dec, push_str};

verus! {

broadcast use vstd::std_specs::hash::group_hash_axioms;

// ═════════════════════════════════════════════════════════════════════
// Handle table
// ═════════════════════════════════════════════════════════════════════

/// A slot in the handle table: occupied (a value and its generation) or
/// free (the generation it was freed at, and the next free slot).
#[derive(Debug)]
pub enum Slot<T> {
    /// Occupied slot holding a live resource value.
    Occupied { value: T, generation: u32 },
    /// Free slot available for reuse.
    Free { generation: u32, next_free: Option<u32> },
}

/// A generational handle table that maps `u32` indices to `T` values.
///
/// Handles carry a generation counter so that stale handles (pointing to a
/// slot that has been freed and possibly reused) are detected and rejected.
/// Slots are recycled through a free list; each `free` bumps the slot's
/// generation; per-slot borrow counts prevent a drop while borrows are
/// active; parent -> children edges support cascading drop.
pub struct HandleTable<T> {
    slots: Vec<Slot<T>>,
    free_head: Option<u32>,
    len: u32,
    borrow_counts: HashMap<u32, u32>,
    children: HashMap<u32, Vec<u32>>,
    parent_of: HashMap<u32, u32>,
    free_list: Ghost<Seq<u32>>,
}

/// Errors that can occur during handle table operations.
#[derive(Debug, Clone, PartialEq, Eq, Structural)]
pub enum HandleError {
    /// The handle index is out of range.
    InvalidIndex(u32),
    /// The handle's generation does not match the slot's current generation.
    StaleHandle { index: u32, expected: u32, actual: u32 },
    /// Attempted to free a handle that still has active borrows.
    ActiveBorrows { index: u32, count: u32 },
    /// The table is at maximum capacity (2^32 slots).
    TableFull,
    /// Attempted to operate on an already-freed slot.
    AlreadyFreed(u32),
    /// A cycle would be created in the parent -> child relationship.
    CycleDetected { parent: u32, child: u32 },
}

/// The text of a handle error.
pub open spec fn handle_error_text(e: HandleError) -> Seq<char> {
    match e {
        HandleError::InvalidIndex(i) => "invalid handle index: "@ + dec(i as nat),
        HandleError::StaleHandle { index, expected, actual } => "stale handle at index "@ + dec(
            index as nat,
        ) + ": expected generation "@ + dec(expected as nat) + ", got "@ + dec(actual as nat),
        HandleError::ActiveBorrows { index, count } => "cannot drop handle "@ + dec(index as nat)
            + ": "@ + dec(count as nat) + " active borrow(s)"@,
        HandleError::TableFull => "handle table is full"@,
        HandleError::AlreadyFreed(i) => "handle "@ + dec(i as nat) + " is already freed"@,
        HandleError::CycleDetected { parent, child } => "cycle detected: adding child "@ + dec(
            child as nat,
        ) + " to parent "@ + dec(parent as nat),
    }
}

impl HandleError {
    /// The text of this error.
    pub fn to_string(&self) -> (s: String)
        ensures
            s@ == handle_error_text(*self),
    {
        let mut s;
        match self {
            HandleError::InvalidIndex(i) => {
                s = owned("invalid handle index: ");
                push_dec(&mut s, *i as u64);
            },
            HandleError::StaleHandle { index, expected, actual } => {
                s = owned("stale handle at index ");
                push_dec(&mut s, *index as u64);
                push_str(&mut s, ": expected generation ");
                push_dec(&mut s, *expected as u64);
                push_str(&mut s, ", got ");
                push_dec(&mut s, *actual as u64);
            },
            HandleError::ActiveBorrows { index, count } => {
                s = owned("cannot drop handle ");
                push_dec(&mut s, *index as u64);
                push_str(&mut s, ": ");
                push_dec(&mut s, *count as u64);
                push_str(&mut s, " active borrow(s)");
            },
            HandleError::TableFull => {
                s = owned("handle table is full");
            },
            HandleError::AlreadyFreed(i) => {
                s = owned("handle ");
                push_dec(&mut s, *i as u64);
                push_str(&mut s, " is already freed");
            },
            HandleError::CycleDetected { parent, child } => {
                s = owned("cycle detected: adding child ");
                push_dec(&mut s, *child as u64);
                push_str(&mut s, " to parent ");
                push_dec(&mut s, *parent as u64);
            },
        }
        s
    }
}

/// How many slots are occupied.
pub open spec fn occupied_count<T>(s: Seq<Slot<T>>) -> nat
    decreases s.len(),
{
    if s.len() == 0 {
        0
    } else {
        occupied_count(s.drop_last()) + if s.last() is Occupied {
            1nat
        } else {
            0nat
        }
    }
}

proof fn lemma_occupied_count_update<T>(s: Seq<Slot<T>>, i: int, x: Slot<T>)
    requires
        0 <= i < s.len(),
    ensures
        occupied_count(s.update(i, x)) + (if s[i] is Occupied {
            1int
        } else {
            0int
        }) == occupied_count(s) + (if x is Occupied {
            1int
        } else {
            0int
        }),
    decreases s.len(),
{
    if i < s.len() - 1 {
        lemma_occupied_count_update(s.drop_last(), i, x);
        assert(s.update(i, x).drop_last() =~= s.drop_last().update(i, x));
    } else {
        assert(s.update(i, x).drop_last() =~= s.drop_last());
    }
}

proof fn lemma_occupied_count_bound<T>(s: Seq<Slot<T>>, i: int)
    requires
        0 <= i < s.len(),
        s[i] is Occupied,
    ensures
        occupied_count(s) >= 1,
        occupied_count(s) <= s.len(),
    decreases s.len(),
{
    lemma_occupied_count_le(s);
    if i < s.len() - 1 {
        lemma_occupied_count_bound(s.drop_last(), i);
    }
}

proof fn lemma_occupied_count_le<T>(s: Seq<Slot<T>>)
    ensures
        occupied_count(s) <= s.len(),
    decreases s.len(),
{
    if s.len() > 0 {
        lemma_occupied_count_le(s.drop_last());
    }
}

/// The generation recorded in a slot.
pub open spec fn slot_gen<T>(s: Slot<T>) -> u32 {
    match s {
        Slot::Occupied { generation, .. } => generation,
        Slot::Free { generation, .. } => generation,
    }
}

/// `fl` lists distinct free slots, each linking to the next.
pub open spec fn free_list_ok<T>(slots: Seq<Slot<T>>, fl: Seq<u32>) -> bool {
    &&& forall|a: int, b: int| 0 <= a < b < fl.len() ==> fl[a] != fl[b]
    &&& forall|k: int| 0 <= k < fl.len() ==> free_link(slots, fl, k)
}

/// Entry `k` of the free list is a free slot linking to entry `k + 1`.
pub open spec fn free_link<T>(slots: Seq<Slot<T>>, fl: Seq<u32>, k: int) -> bool {
    &&& (fl[k] as int) < slots.len()
    &&& slots[fl[k] as int] is Free
    &&& slots[fl[k] as int]->Free_next_free == if k + 1 < fl.len() {
        Some(fl[k + 1])
    } else {
        None
    }
}

/// Overwriting a slot that is not on the free list keeps the list intact.
proof fn lemma_free_list_kept<T>(slots: Seq<Slot<T>>, fl: Seq<u32>, idx: int, x: Slot<T>)
    requires
        free_list_ok(slots, fl),
        forall|k: int| 0 <= k < fl.len() ==> fl[k] != idx,
        0 <= idx < slots.len(),
    ensures
        free_list_ok(slots.update(idx, x), fl),
{
    assert forall|k: int| 0 <= k < fl.len() implies free_link(slots.update(idx, x), fl, k) by {
        assert(free_link(slots, fl, k));
    }
}

/// Taking the head off the free list, and filling its slot, keeps the rest intact.
proof fn lemma_free_list_pop<T>(slots: Seq<Slot<T>>, fl: Seq<u32>, x: Slot<T>)
    requires
        free_list_ok(slots, fl),
        fl.len() > 0,
    ensures
        free_list_ok(slots.update(fl[0] as int, x), fl.drop_first()),
{
    let nfl = fl.drop_first();
    assert(free_link(slots, fl, 0));
    let ns = slots.update(fl[0] as int, x);
    assert forall|k: int| 0 <= k < nfl.len() implies free_link(ns, nfl, k) by {
        assert(free_link(slots, fl, k + 1));
        assert(nfl[k] == fl[k + 1]);
        assert(fl[k + 1] != fl[0]);
        assert(ns[fl[k + 1] as int] == slots[fl[k + 1] as int]);
        if k + 1 < nfl.len() {
            assert(nfl[k + 1] == fl[k + 2]);
        }
    }
}

/// Freeing an occupied slot and putting it at the head keeps the list intact.
proof fn lemma_free_list_push<T>(slots: Seq<Slot<T>>, fl: Seq<u32>, idx: u32, g: u32)
    requires
        free_list_ok(slots, fl),
        (idx as int) < slots.len(),
        slots[idx as int] is Occupied,
    ensures
        free_list_ok(
            slots.update(
                idx as int,
                Slot::Free {
                    generation: g,
                    next_free: if fl.len() > 0 {
                        Some(fl[0])
                    } else {
                        None
                    },
                },
            ),
            seq![idx] + fl,
        ),
{
    let nfl = seq![idx] + fl;
    let ns = slots.update(
        idx as int,
        Slot::Free {
            generation: g,
            next_free: if fl.len() > 0 {
                Some(fl[0])
            } else {
                None
            },
        },
    );
    assert forall|k: int| 0 <= k < fl.len() implies fl[k] != idx by {
        assert(free_link(slots, fl, k));
    }
    assert forall|a: int, b: int| 0 <= a < b < nfl.len() implies nfl[a] != nfl[b] by {
        if a > 0 {
            assert(nfl[a] == fl[a - 1] && nfl[b] == fl[b - 1]);
        } else {
            assert(nfl[b] == fl[b - 1]);
        }
    }
    assert forall|k: int| 0 <= k < nfl.len() implies free_link(ns, nfl, k) by {
        if k > 0 {
            assert(nfl[k] == fl[k - 1]);
            assert(free_link(slots, fl, k - 1));
            assert(fl[k - 1] != idx);
            assert(ns[fl[k - 1] as int] == slots[fl[k - 1] as int]);
            if k + 1 < nfl.len() {
                assert(nfl[k + 1] == fl[k]);
            }
            assert((nfl[k] as int) < ns.len());
            assert(ns[nfl[k] as int] is Free);
            assert(free_link(ns, nfl, k));
        } else {
            assert(nfl[0] == idx);
            assert(ns[idx as int] is Free);
            if fl.len() > 0 {
                assert(nfl[1] == fl[0]);
            }
            assert(free_link(ns, nfl, k));
        }
    }
}

// ═════════════════════════════════════════════════════════════════════
// Parent chains
// ═════════════════════════════════════════════════════════════════════

/// One step up the parent chain (a node without a parent stays put).
pub open spec fn step_up(pm: Map<u32, u32>, x: u32) -> u32 {
    if pm.contains_key(x) {
        pm[x]
    } else {
        x
    }
}

/// The node `n` steps up the parent chain from `x`.
pub open spec fn walk_up(pm: Map<u32, u32>, x: u32, n: nat) -> u32
    decreases n,
{
    if n == 0 {
        x
    } else {
        walk_up(pm, step_up(pm, x), (n - 1) as nat)
    }
}

/// `a` is `d` or one of its ancestors.
pub open spec fn is_ancestor_of(pm: Map<u32, u32>, a: u32, d: u32) -> bool {
    exists|k: nat| walk_up(pm, d, k) == a
}

/// The parent chain from `x` ends at a node without a parent.
pub open spec fn has_root(pm: Map<u32, u32>, x: u32) -> bool {
    exists|n: nat| !pm.contains_key(#[trigger] walk_up(pm, x, n))
}

/// Every parent chain ends at a node without a parent: there are no cycles.
pub open spec fn parents_acyclic(pm: Map<u32, u32>) -> bool {
    forall|x: u32| #[trigger] has_root(pm, x)
}

proof fn lemma_acyclic_empty()
    ensures
        parents_acyclic(Map::<u32, u32>::empty()),
{
    assert forall|x: u32| #[trigger] has_root(Map::<u32, u32>::empty(), x) by {
        assert(!Map::<u32, u32>::empty().contains_key(walk_up(Map::<u32, u32>::empty(), x, 0)));
    }
}

proof fn lemma_walk_split(pm: Map<u32, u32>, x: u32, a: nat, b: nat)
    ensures
        walk_up(pm, x, a + b) == walk_up(pm, walk_up(pm, x, a), b),
    decreases a,
{
    if a > 0 {
        lemma_walk_split(pm, step_up(pm, x), (a - 1) as nat, b);
        assert((a + b - 1) as nat == ((a - 1) as nat + b));
    }
}

proof fn lemma_walk_stays(pm: Map<u32, u32>, x: u32, n: nat, k: nat)
    requires
        !pm.contains_key(walk_up(pm, x, n)),
        k >= n,
    ensures
        walk_up(pm, x, k) == walk_up(pm, x, n),
    decreases k,
{
    if k > n {
        let k1 = (k - 1) as nat;
        lemma_walk_stays(pm, x, n, k1);
        lemma_walk_split(pm, x, k1, 1);
        assert(k1 + 1 == k);
        let y = walk_up(pm, x, k1);
        assert(walk_up(pm, y, 1) == walk_up(pm, step_up(pm, y), 0));
    }
}

/// Removing a node's parent keeps the chains finite.
proof fn lemma_acyclic_remove(pm: Map<u32, u32>, x: u32)
    requires
        parents_acyclic(pm),
    ensures
        parents_acyclic(pm.remove(x)),
{
    let pm2 = pm.remove(x);
    assert forall|y: u32| #[trigger] has_root(pm2, y) by {
        assert(has_root(pm, y));
        let n = choose|n: nat| !pm.contains_key(#[trigger] walk_up(pm, y, n));
        lemma_remove_root(pm, x, y, n);
    }
}

proof fn lemma_remove_root(pm: Map<u32, u32>, x: u32, y: u32, n: nat)
    requires
        !pm.contains_key(walk_up(pm, y, n)),
    ensures
        has_root(pm.remove(x), y),
    decreases n,
{
    let pm2 = pm.remove(x);
    if !pm2.contains_key(y) {
        assert(walk_up(pm2, y, 0) == y);
    } else {
        assert(step_up(pm2, y) == step_up(pm, y));
        lemma_remove_root(pm, x, step_up(pm, y), (n - 1) as nat);
        let m = choose|m: nat| !pm2.contains_key(#[trigger] walk_up(pm2, step_up(pm, y), m));
        assert(walk_up(pm2, y, m + 1) == walk_up(pm2, step_up(pm2, y), m));
    }
}

/// Chains that avoid `c` are the same after `c` is given a parent.
proof fn lemma_walk_avoiding(pm: Map<u32, u32>, c: u32, p: u32, z: u32, k: nat)
    requires
        forall|j: nat| #[trigger] walk_up(pm, z, j) != c,
    ensures
        walk_up(pm.insert(c, p), z, k) == walk_up(pm, z, k),
    decreases k,
{
    if k > 0 {
        assert(walk_up(pm, z, 0) != c);
        assert(step_up(pm.insert(c, p), z) == step_up(pm, z));
        assert forall|j: nat| #[trigger] walk_up(pm, step_up(pm, z), j) != c by {
            assert(walk_up(pm, z, j + 1) == walk_up(pm, step_up(pm, z), j));
        }
        lemma_walk_avoiding(pm, c, p, step_up(pm, z), (k - 1) as nat);
    }
}

proof fn lemma_insert_root(pm: Map<u32, u32>, c: u32, p: u32, y: u32, n: nat)
    requires
        parents_acyclic(pm),
        !is_ancestor_of(pm, c, p),
        !pm.contains_key(walk_up(pm, y, n)),
    ensures
        has_root(pm.insert(c, p), y),
    decreases n,
{
    let pm2 = pm.insert(c, p);
    assert forall|j: nat| #[trigger] walk_up(pm, p, j) != c by {
        if walk_up(pm, p, j) == c {
            assert(is_ancestor_of(pm, c, p));
        }
    }
    if y == c {
        assert(has_root(pm, p));
        let np = choose|np: nat| !pm.contains_key(#[trigger] walk_up(pm, p, np));
        lemma_walk_avoiding(pm, c, p, p, np);
        assert(walk_up(pm, p, np) != c);
        assert(step_up(pm2, c) == p);
        assert(walk_up(pm2, c, np + 1) == walk_up(pm2, p, np));
    } else if !pm.contains_key(y) {
        assert(!pm2.contains_key(walk_up(pm2, y, 0)));
    } else {
        assert(step_up(pm2, y) == step_up(pm, y));
        lemma_insert_root(pm, c, p, step_up(pm, y), (n - 1) as nat);
        let m = choose|m: nat| !pm2.contains_key(#[trigger] walk_up(pm2, step_up(pm, y), m));
        assert(walk_up(pm2, y, m + 1) == walk_up(pm2, step_up(pm2, y), m));
    }
}

/// Giving `c` the parent `p`, where `c` is not an ancestor of `p`, keeps
/// the chains finite.
proof fn lemma_acyclic_insert(pm: Map<u32, u32>, c: u32, p: u32)
    requires
        parents_acyclic(pm),
        !is_ancestor_of(pm, c, p),
    ensures
        parents_acyclic(pm.insert(c, p)),
{
    let pm2 = pm.insert(c, p);
    assert forall|y: u32| #[trigger] has_root(pm2, y) by {
        assert(has_root(pm, y));
        let n = choose|n: nat| !pm.contains_key(#[trigger] walk_up(pm, y, n));
        lemma_insert_root(pm, c, p, y, n);
    }
}

/// The state of a handle table as values: its slots, the head of the free
/// list, the occupied count, the borrow counts, and the parent and children
/// records.
pub struct TableModel<T> {
    pub slots: Seq<Slot<T>>,
    pub free_head: Option<u32>,
    pub len: nat,
    pub borrows: Map<u32, u32>,
    pub parents: Map<u32, u32>,
    pub kids: Map<u32, Seq<u32>>,
}

/// Every index in the children records, as a parent or as a child, is
/// below `n`.
pub open spec fn kids_in_range(k: Map<u32, Seq<u32>>, n: nat) -> bool {
    forall|p: u32| #[trigger] k.contains_key(p) ==> (p as int) < n && forall|j: int| 0 <= j < k[p].len() ==> (
    #[trigger] k[p][j] as int) < n
}

/// Every item of `drop_item(s, x)` is an item of `s`.
proof fn lemma_drop_item_sub(s: Seq<u32>, x: u32)
    ensures
        forall|j: int| 0 <= j < drop_item(s, x).len() ==> s.contains(#[trigger] drop_item(s, x)[j]),
    decreases s.len(),
{
    if s.len() > 0 {
        lemma_drop_item_sub(s.drop_last(), x);
        let d = drop_item(s.drop_last(), x);
        assert forall|j: int| 0 <= j < drop_item(s, x).len() implies s.contains(#[trigger] drop_item(s, x)[j]) by {
            if s.last() == x {
                assert(s.drop_last().contains(d[j]));
                let i = choose|i: int| 0 <= i < s.drop_last().len() && s.drop_last()[i] == d[j];
                assert(s[i] == d[j]);
            } else if j < d.len() {
                assert(drop_item(s, x)[j] == d[j]);
                assert(s.drop_last().contains(d[j]));
                let i = choose|i: int| 0 <= i < s.drop_last().len() && s.drop_last()[i] == d[j];
                assert(s[i] == d[j]);
            } else {
                assert(drop_item(s, x)[j] == s.last());
                assert(s[s.len() - 1] == s.last());
            }
        }
    }
}

/// Taking a child out of a parent's children keeps the records in range.
proof fn lemma_kids_without_range(k: Map<u32, Seq<u32>>, p: u32, c: u32, n: nat)
    requires
        kids_in_range(k, n),
    ensures
        kids_in_range(kids_without(k, p, c), n),
        kids_in_range(kids_without(k, p, c).remove(c), n),
        kids_in_range(k.remove(c), n),
{
    if k.contains_key(p) {
        lemma_drop_item_sub(k[p], c);
        let k2 = kids_without(k, p, c);
        assert forall|q: u32| #[trigger] k2.contains_key(q) implies (q as int) < n && forall|j: int| 0 <= j < k2[q].len() ==> (
        #[trigger] k2[q][j] as int) < n by {
            if q == p {
                assert forall|j: int| 0 <= j < k2[q].len() implies (#[trigger] k2[q][j] as int) < n by {
                    assert(k[p].contains(k2[q][j]));
                }
            }
        }
    }
}

/// One step of `p` in the children records: the next index is a child of
/// the index at `i`.
pub open spec fn path_step(k: Map<u32, Seq<u32>>, p: Seq<u32>, i: int) -> bool {
    kids_of(k, p[i]).contains(p[i + 1])
}

/// `p` is a path in the children records.
pub open spec fn kids_path(k: Map<u32, Seq<u32>>, p: Seq<u32>) -> bool {
    p.len() > 0 && forall|i: int| 0 <= i < p.len() - 1 ==> #[trigger] path_step(k, p, i)
}

/// `b` can be reached from `a` through the children records (in no step
/// when they are the same index).
pub open spec fn kids_reach(k: Map<u32, Seq<u32>>, a: u32, b: u32) -> bool {
    exists|p: Seq<u32>| #[trigger] kids_path(k, p) && p[0] == a && p.last() == b
}

proof fn lemma_reach_refl(k: Map<u32, Seq<u32>>, a: u32)
    ensures
        kids_reach(k, a, a),
{
    let p = seq![a];
    assert(kids_path(k, p));
}

proof fn lemma_reach_extend(k: Map<u32, Seq<u32>>, a: u32, x: u32, y: u32)
    requires
        kids_reach(k, a, x),
        kids_of(k, x).contains(y),
    ensures
        kids_reach(k, a, y),
{
    let p = choose|p: Seq<u32>| #[trigger] kids_path(k, p) && p[0] == a && p.last() == x;
    let q = p.push(y);
    assert forall|i: int| 0 <= i < q.len() - 1 implies #[trigger] path_step(k, q, i) by {
        if i < p.len() - 1 {
            assert(path_step(k, p, i));
        }
    }
    assert(kids_path(k, q));
}

/// The number of `false` items.
pub open spec fn false_count(s: Seq<bool>) -> nat
    decreases s.len(),
{
    if s.len() == 0 {
        0
    } else {
        false_count(s.drop_last()) + if s.last() {
            0nat
        } else {
            1nat
        }
    }
}

proof fn lemma_false_count_set(s: Seq<bool>, i: int)
    requires
        0 <= i < s.len(),
        !s[i],
    ensures
        false_count(s.update(i, true)) < false_count(s),
    decreases s.len(),
{
    if i < s.len() - 1 {
        assert(s.update(i, true).drop_last() =~= s.drop_last().update(i, true));
        lemma_false_count_set(s.drop_last(), i);
    } else {
        assert(s.update(i, true).drop_last() =~= s.drop_last());
    }
}

/// A path that starts in a set of indices closed under the children
/// records stays in it.
proof fn lemma_closed_reach(k: Map<u32, Seq<u32>>, vis: Seq<bool>, p: Seq<u32>)
    requires
        kids_path(k, p),
        (p[0] as int) < vis.len(),
        vis[p[0] as int],
        forall|x: u32, c: u32| (x as int) < vis.len() && vis[x as int] && #[trigger] kids_of(k, x).contains(c)
            ==> (c as int) < vis.len() && vis[c as int],
    ensures
        (p.last() as int) < vis.len(),
        vis[p.last() as int],
    decreases p.len(),
{
    if p.len() > 1 {
        let q = p.drop_last();
        assert forall|i: int| 0 <= i < q.len() - 1 implies #[trigger] path_step(k, q, i) by {
            assert(path_step(k, p, i));
        }
        lemma_closed_reach(k, vis, q);
        assert(path_step(k, p, p.len() - 2));
    }
}

/// The model of an empty table: no slots, no free slot, nothing counted,
/// borrowed or nested.
pub open spec fn empty_model<T>() -> TableModel<T> {
    TableModel {
        slots: Seq::empty(),
        free_head: None,
        len: 0,
        borrows: Map::empty(),
        parents: Map::empty(),
        kids: Map::empty(),
    }
}

/// What validating `h` gives: an index past the slots is invalid; a free
/// slot, or one of another generation, makes it stale.
pub open spec fn model_check<T>(m: TableModel<T>, h: RawHandle) -> Result<(), HandleError> {
    if h.index >= m.slots.len() {
        Err(HandleError::InvalidIndex(h.index))
    } else if m.slots[h.index as int] is Occupied && slot_gen(m.slots[h.index as int]) == h.generation {
        Ok(())
    } else {
        Err(
            HandleError::StaleHandle {
                index: h.index,
                expected: slot_gen(m.slots[h.index as int]),
                actual: h.generation,
            },
        )
    }
}

/// The active borrow count of slot `i`.
pub open spec fn model_borrow<T>(m: TableModel<T>, i: u32) -> u32 {
    if m.borrows.contains_key(i) {
        m.borrows[i]
    } else {
        0
    }
}

/// The children records with `c` taken out of the children of `p`.
pub open spec fn kids_without(k: Map<u32, Seq<u32>>, p: u32, c: u32) -> Map<u32, Seq<u32>> {
    if k.contains_key(p) {
        k.insert(p, drop_item(k[p], c))
    } else {
        k
    }
}

/// The children records with `c` taken out of every list of children.
pub open spec fn kids_drop_all(k: Map<u32, Seq<u32>>, c: u32) -> Map<u32, Seq<u32>> {
    k.map_values(|s: Seq<u32>| drop_item(s, c))
}

/// The children records once slot `i` is freed: it leaves every list of
/// children it is in, and its own children record goes.
pub open spec fn kids_after_free(k: Map<u32, Seq<u32>>, i: u32) -> Map<u32, Seq<u32>> {
    kids_drop_all(k, i).remove(i)
}

/// Freeing keeps the children records in range.
proof fn lemma_kids_after_free_range(k: Map<u32, Seq<u32>>, i: u32, n: nat)
    requires
        kids_in_range(k, n),
    ensures
        kids_in_range(kids_after_free(k, i), n),
{
    let k2 = kids_after_free(k, i);
    assert forall|q: u32| #[trigger] k2.contains_key(q) implies (q as int) < n && forall|j: int| 0 <= j < k2[q].len() ==> (
    #[trigger] k2[q][j] as int) < n by {
        lemma_drop_item_sub(k[q], i);
        assert forall|j: int| 0 <= j < k2[q].len() implies (#[trigger] k2[q][j] as int) < n by {
            assert(k[q].contains(k2[q][j]));
        }
    }
}

/// Freeing `h`: an invalid or stale handle, or one with active borrows,
/// changes nothing and gives the error; otherwise the slot becomes the
/// head of the free list with its generation bumped, it leaves every list
/// of children it is in, its records are dropped, and its value comes back.
pub open spec fn model_free<T>(m: TableModel<T>, h: RawHandle) -> (TableModel<T>, Result<T, HandleError>) {
    match model_check(m, h) {
        Err(e) => (m, Err(e)),
        Ok(_) => if model_borrow(m, h.index) > 0 {
            (m, Err(HandleError::ActiveBorrows { index: h.index, count: model_borrow(m, h.index) }))
        } else {
            (
                TableModel {
                    slots: m.slots.update(
                        h.index as int,
                        Slot::Free { generation: (h.generation + 1) as u32, next_free: m.free_head },
                    ),
                    free_head: Some(h.index),
                    len: (m.len - 1) as nat,
                    borrows: m.borrows.remove(h.index),
                    parents: m.parents.remove(h.index),
                    kids: kids_after_free(m.kids, h.index),
                },
                Ok(m.slots[h.index as int]->Occupied_value),
            )
        },
    }
}

/// `s` without the items equal to `x`.
pub open spec fn drop_item(s: Seq<u32>, x: u32) -> Seq<u32>
    decreases s.len(),
{
    if s.len() == 0 {
        s
    } else if s.last() == x {
        drop_item(s.drop_last(), x)
    } else {
        drop_item(s.drop_last(), x).push(s.last())
    }
}

/// Allocating `v`: the head of the free list is reused with its
/// generation, or, with no free slot, a new slot of generation 0 is
/// appended; past 2^32 slots the table is full.
pub open spec fn model_alloc<T>(m: TableModel<T>, v: T) -> (TableModel<T>, Result<RawHandle, HandleError>) {
    match m.free_head {
        Some(i) => match m.slots[i as int] {
            Slot::Free { generation, next_free } => (
                TableModel {
                    slots: m.slots.update(i as int, Slot::Occupied { value: v, generation }),
                    free_head: next_free,
                    len: m.len + 1,
                    ..m
                },
                Ok(RawHandle { index: i, generation }),
            ),
            Slot::Occupied { .. } => (m, Err(HandleError::InvalidIndex(i))),
        },
        None => if m.slots.len() > u32::MAX {
            (m, Err(HandleError::TableFull))
        } else {
            (
                TableModel { slots: m.slots.push(Slot::Occupied { value: v, generation: 0 }), len: m.len + 1, ..m },
                Ok(RawHandle { index: m.slots.len() as u32, generation: 0 }),
            )
        },
    }
}

/// A freshly allocated handle is live and reads back the allocated value.
pub proof fn law_alloc_then_get<T>(t: HandleTable<T>, v: T)
    requires
        t.wf(),
    ensures
        model_alloc(t.model(), v).1 matches Ok(h) ==> {
            &&& model_check(model_alloc(t.model(), v).0, h) is Ok
            &&& model_alloc(t.model(), v).0.slots[h.index as int]->Occupied_value == v
        },
{
    let m = t.model();
    if m.free_head is Some {
        assert(free_link(t.slots@, t.free_list@, 0));
    }
}

/// A freed handle is stale: validating it names the slot's new
/// generation.
pub proof fn law_free_then_stale<T>(m: TableModel<T>, h: RawHandle)
    requires
        model_free(m, h).1 is Ok,
    ensures
        model_check(model_free(m, h).0, h) == Err::<(), HandleError>(
            HandleError::StaleHandle { index: h.index, expected: (h.generation + 1) as u32, actual: h.generation },
        ),
{
}

/// After a free, the next allocation reuses the slot under a new
/// generation, and the freed handle stays rejected.
pub proof fn law_reuse_rejects_old_handle<T>(m: TableModel<T>, h: RawHandle, v: T)
    requires
        model_free(m, h).1 is Ok,
        h.generation < u32::MAX,
    ensures
        ({
            let (m2, r) = model_alloc(model_free(m, h).0, v);
            &&& r == Ok::<RawHandle, HandleError>(RawHandle { index: h.index, generation: (h.generation + 1) as u32 })
            &&& model_check(m2, h) is Err
            &&& model_check(m2, r->Ok_0) is Ok
            &&& m2.slots[h.index as int]->Occupied_value == v
        }),
{
}

/// Detaching `child` from `parent`: its parent record goes, and it leaves
/// the parent's children.
pub open spec fn model_detach<T>(m: TableModel<T>, parent: u32, child: u32) -> TableModel<T> {
    TableModel { parents: m.parents.remove(child), kids: kids_without(m.kids, parent, child), ..m }
}

/// One step of the depth-first walk: pop an index; if its slot is
/// occupied, record its handle and push its children.
pub open spec fn dfs_step<T>(m: TableModel<T>, stack: Seq<u32>, out: Seq<RawHandle>) -> (Seq<u32>, Seq<RawHandle>) {
    let idx = stack.last();
    let rest = stack.drop_last();
    if (idx as int) < m.slots.len() && m.slots[idx as int] is Occupied {
        (
            rest + kids_of(m.kids, idx),
            out.push(RawHandle { index: idx, generation: slot_gen(m.slots[idx as int]) }),
        )
    } else {
        (rest, out)
    }
}

/// The walk from `stack`, if it ends within `fuel` steps.
pub open spec fn dfs_run<T>(m: TableModel<T>, stack: Seq<u32>, out: Seq<RawHandle>, fuel: nat) -> Option<
    Seq<RawHandle>,
>
    decreases fuel,
{
    if stack.len() == 0 {
        Some(out)
    } else if fuel == 0 {
        None
    } else {
        let (s, o) = dfs_step(m, stack, out);
        dfs_run(m, s, o, (fuel - 1) as nat)
    }
}

/// The walk from the children of `idx` ends.
pub open spec fn dfs_finishes<T>(m: TableModel<T>, idx: u32) -> bool {
    exists|n: nat| #[trigger] dfs_run(m, kids_of(m.kids, idx), Seq::empty(), n) is Some
}

/// The handles the walk from the children of `idx` records, in the order
/// it records them.
pub open spec fn descendants<T>(m: TableModel<T>, idx: u32) -> Seq<RawHandle> {
    let n = choose|n: nat| #[trigger] dfs_run(m, kids_of(m.kids, idx), Seq::empty(), n) is Some;
    match dfs_run(m, kids_of(m.kids, idx), Seq::empty(), n) {
        Some(o) => o,
        None => Seq::empty(),
    }
}

/// Freeing the handles `cs` from the last to the first, each detached from
/// `parent` first; a freed value joins `acc`, and the first failure stops.
pub open spec fn free_children<T>(m: TableModel<T>, parent: u32, cs: Seq<RawHandle>, acc: Seq<T>) -> (
    TableModel<T>,
    Result<Seq<T>, HandleError>,
)
    decreases cs.len(),
{
    if cs.len() == 0 {
        (m, Ok(acc))
    } else {
        let c = cs.last();
        let (m2, r) = model_free(model_detach(m, parent, c.index), c);
        match r {
            Ok(v) => free_children(m2, parent, cs.drop_last(), acc.push(v)),
            Err(HandleError::AlreadyFreed(_)) => free_children(m2, parent, cs.drop_last(), acc),
            Err(e) => (m2, Err(e)),
        }
    }
}

/// Freeing `h` with everything nested under it: its descendants first, the
/// last found first, then `h`; the values come back in that order.
pub open spec fn free_recursive_model<T>(m: TableModel<T>, h: RawHandle) -> (
    TableModel<T>,
    Result<Seq<T>, HandleError>,
) {
    match model_check(m, h) {
        Err(e) => (m, Err(e)),
        Ok(_) => {
            let (m2, r) = free_children(m, h.index, descendants(m, h.index), Seq::empty());
            match r {
                Err(e) => (m2, Err(e)),
                Ok(vals) => {
                    let (m3, r3) = model_free(m2, h);
                    match r3 {
                        Ok(v) => (m3, Ok(vals.push(v))),
                        Err(e) => (m3, Err(e)),
                    }
                },
            }
        },
    }
}

/// What a recursive free of `h` needs: for a live handle, the walk over
/// its descendants ends, and no generation it bumps is at its maximum.
pub open spec fn recursive_drop_ok<T>(m: TableModel<T>, h: RawHandle) -> bool {
    model_check(m, h) is Ok ==> {
        &&& dfs_finishes(m, h.index)
        &&& h.generation < u32::MAX
        &&& forall|k: int| 0 <= k < descendants(m, h.index).len() ==> (#[trigger] descendants(m, h.index)[k]).generation < u32::MAX
    }
}

/// Slot `i` holds a live value.
pub open spec fn model_occupied<T>(m: TableModel<T>, i: u32) -> bool {
    (i as int) < m.slots.len() && m.slots[i as int] is Occupied
}

/// The occupied count is the number of occupied slots.
pub open spec fn model_wf<T>(m: TableModel<T>) -> bool {
    m.len == occupied_count(m.slots)
}

proof fn lemma_model_free<T>(m: TableModel<T>, h: RawHandle)
    requires
        model_wf(m),
    ensures
        model_wf(model_free(m, h).0),
        model_free(m, h).0.slots.len() == m.slots.len(),
        forall|i: u32| !model_occupied(m, i) ==> !model_occupied(model_free(m, h).0, i),
        forall|j: int| 0 <= j < m.slots.len() && j != h.index ==> model_free(m, h).0.slots[j] == m.slots[j],
        model_free(m, h).1 is Ok ==> {
            &&& !model_occupied(model_free(m, h).0, h.index)
            &&& model_free(m, h).0.len + 1 == m.len
            &&& model_free(m, h).1 == Ok::<T, HandleError>(m.slots[h.index as int]->Occupied_value)
        },
        !(model_free(m, h).1 matches Err(HandleError::AlreadyFreed(_))),
{
    if model_free(m, h).1 is Ok {
        let i = h.index as int;
        let x = Slot::<T>::Free { generation: (h.generation + 1) as u32, next_free: m.free_head };
        lemma_occupied_count_update(m.slots, i, x);
        lemma_occupied_count_bound(m.slots, i);
    }
}

proof fn lemma_free_children<T>(m: TableModel<T>, p: u32, cs: Seq<RawHandle>, acc: Seq<T>)
    requires
        model_wf(m),
        free_children(m, p, cs, acc).1 is Ok,
    ensures
        ({
            let (m2, r) = free_children(m, p, cs, acc);
            &&& model_wf(m2)
            &&& m2.slots.len() == m.slots.len()
            &&& forall|k: int| 0 <= k < cs.len() ==> !model_occupied(m2, (#[trigger] cs[k]).index)
            &&& forall|i: u32| !model_occupied(m, i) ==> !model_occupied(m2, i)
            &&& forall|j: int|
                0 <= j < m.slots.len() && (forall|k: int| 0 <= k < cs.len() ==> cs[k].index != j) ==> m2.slots[j]
                    == m.slots[j]
            &&& r matches Ok(vals) && m2.len + vals.len() == m.len + acc.len()
        }),
    decreases cs.len(),
{
    if cs.len() > 0 {
        let c = cs.last();
        let md = model_detach(m, p, c.index);
        lemma_model_free(md, c);
        let (m2, r) = model_free(md, c);
        match r {
            Ok(v) => {
                lemma_free_children(m2, p, cs.drop_last(), acc.push(v));
                let m3 = free_children(m2, p, cs.drop_last(), acc.push(v)).0;
                assert forall|k: int| 0 <= k < cs.len() implies !model_occupied(m3, (#[trigger] cs[k]).index) by {
                    if k < cs.len() - 1 {
                        assert(cs.drop_last()[k] == cs[k]);
                    }
                }
                assert forall|j: int|
                    0 <= j < m.slots.len() && (forall|k: int| 0 <= k < cs.len() ==> cs[k].index != j) implies m3.slots[j]
                        == m.slots[j] by {
                    assert(cs[cs.len() - 1].index != j);
                    assert forall|k: int| 0 <= k < cs.drop_last().len() implies cs.drop_last()[k].index != j by {
                        assert(cs.drop_last()[k] == cs[k]);
                    }
                }
            },
            Err(e) => {},
        }
    }
}

/// A recursive free that succeeds frees the handle and every resource
/// found under it, returns one value per freed slot, and returns the
/// handle's own value last.
pub proof fn law_free_recursive_clears<T>(m: TableModel<T>, h: RawHandle)
    requires
        model_wf(m),
        free_recursive_model(m, h).1 is Ok,
    ensures
        ({
            let (m2, r) = free_recursive_model(m, h);
            &&& !model_occupied(m2, h.index)
            &&& forall|k: int| 0 <= k < descendants(m, h.index).len() ==> !model_occupied(
                m2,
                (#[trigger] descendants(m, h.index)[k]).index,
            )
            &&& r matches Ok(vals) && m2.len + vals.len() == m.len && vals.last() == m.slots[h.index as int]->Occupied_value
        }),
{
    let cs = descendants(m, h.index);
    lemma_free_children(m, h.index, cs, Seq::empty());
    let (m2, r) = free_children(m, h.index, cs, Seq::empty());
    lemma_model_free(m2, h);
    assert(model_check(m, h) is Ok);
    if exists|k: int| 0 <= k < cs.len() && cs[k].index == h.index {
        let k = choose|k: int| 0 <= k < cs.len() && cs[k].index == h.index;
        assert(!model_occupied(m2, cs[k].index));
    } else {
        assert(m2.slots[h.index as int] == m.slots[h.index as int]);
    }
}

/// `v` without the items equal to `x`.
fn without(v: &Vec<u32>, x: u32) -> (r: Vec<u32>)
    ensures
        r@ == drop_item(v@, x),
{
    let mut out: Vec<u32> = Vec::new();
    let mut i: usize = 0;
    proof {
        assert(v@.take(0) =~= Seq::<u32>::empty());
    }
    while i < v.len()
        invariant
            i <= v@.len(),
            out@ == drop_item(v@.take(i as int), x),
        decreases v@.len() - i,
    {
        proof {
            assert(v@.take(i + 1).drop_last() =~= v@.take(i as int));
        }
        if v[i] != x {
            out.push(v[i]);
        }
        i = i + 1;
    }
    proof {
        assert(v@.take(i as int) =~= v@);
    }
    out
}

impl<T> HandleTable<T> {
    /// The table's state as values.
    pub closed spec fn model(&self) -> TableModel<T> {
        TableModel {
            slots: self.slots@,
            free_head: self.free_head,
            len: self.len as nat,
            borrows: self.borrow_counts@,
            parents: self.parent_of@,
            kids: self.kids(),
        }
    }

    /// The model's parts are what the table's other views show.
    pub proof fn lemma_model_parts(&self)
        ensures
            self.model().slots.len() == self.slots_len(),
            self.model().free_head == self.next_free(),
            self.model().len == self.count(),
            self.model().borrows == self.borrows(),
            self.model().parents == self.parents(),
            self.model().kids == self.kids(),
            forall|i: int| 0 <= i < self.slots_len() ==> {
                &&& (self.model().slots[i] is Occupied <==> #[trigger] self.occupied(i))
                &&& slot_gen(self.model().slots[i]) == self.gen(i)
                &&& (self.occupied(i) ==> self.model().slots[i]->Occupied_value == self.value(i))
            },
    {
    }

    /// How many slots there are, occupied or free.
    pub closed spec fn slots_len(&self) -> nat {
        self.slots@.len()
    }

    /// Slot `i` holds a live value.
    pub closed spec fn occupied(&self, i: int) -> bool {
        0 <= i < self.slots@.len() && self.slots@[i] is Occupied
    }

    /// The generation of slot `i`.
    pub closed spec fn gen(&self, i: int) -> u32 {
        slot_gen(self.slots@[i])
    }

    /// The value in slot `i` (when occupied).
    pub closed spec fn value(&self, i: int) -> T {
        self.slots@[i]->Occupied_value
    }

    /// The free slot the next allocation reuses, if any.
    pub closed spec fn next_free(&self) -> Option<u32> {
        self.free_head
    }

    /// The number of occupied slots.
    pub closed spec fn count(&self) -> nat {
        self.len as nat
    }

    /// Active borrow counts, by slot index.
    pub closed spec fn borrows(&self) -> Map<u32, u32> {
        self.borrow_counts@
    }

    /// The parent of each nested resource, by slot index.
    pub closed spec fn parents(&self) -> Map<u32, u32> {
        self.parent_of@
    }

    /// The children registered under each resource, by slot index.
    pub closed spec fn kids(&self) -> Map<u32, Seq<u32>> {
        self.children@.map_values(|v: Vec<u32>| v@)
    }

    /// The table's invariant: `len` counts the occupied slots, and the free
    /// list links distinct free slots, starting at `free_head`.
    pub closed spec fn wf(&self) -> bool {
        let fl = self.free_list@;
        &&& self.len as nat == occupied_count(self.slots@)
        &&& free_list_ok(self.slots@, fl)
        &&& parents_acyclic(self.parent_of@)
        &&& kids_in_range(self.kids(), self.slots@.len())
        &&& self.free_head == if fl.len() > 0 {
            Some(fl[0])
        } else {
            None
        }
    }

    /// Every slot other than `i` is as it was in `old`.
    pub open spec fn same_except(&self, old: &Self, i: int) -> bool {
        &&& self.slots_len() == old.slots_len()
        &&& forall|j: int|
            0 <= j < old.slots_len() && j != i ==> (self.occupied(j) == old.occupied(j) && self.gen(
                j,
            ) == old.gen(j) && (old.occupied(j) ==> self.value(j) == old.value(j)))
    }

    /// Creates a new empty handle table.
    pub fn new() -> (t: Self)
        ensures
            t.wf(),
            t.model() == empty_model::<T>(),
            t.slots_len() == 0,
            t.count() == 0,
            t.next_free() is None,
            t.borrows() == Map::<u32, u32>::empty(),
            t.parents() == Map::<u32, u32>::empty(),
            t.kids() == Map::<u32, Seq<u32>>::empty(),
    {
        let t = HandleTable {
            slots: Vec::new(),
            free_head: None,
            len: 0,
            borrow_counts: HashMap::new(),
            children: HashMap::new(),
            parent_of: HashMap::new(),
            free_list: Ghost(Seq::empty()),
        };
        proof {
            assert(t.kids() =~= Map::<u32, Seq<u32>>::empty());
            lemma_acyclic_empty();
        }
        t
    }

    /// Creates a handle table with room reserved for `cap` slots (no slot
    /// exists until one is allocated).
    pub fn with_capacity(cap: usize) -> (t: Self)
        ensures
            t.wf(),
            t.model() == empty_model::<T>(),
            t.slots_len() == 0,
            t.count() == 0,
            t.next_free() is None,
            t.borrows() == Map::<u32, u32>::empty(),
            t.parents() == Map::<u32, u32>::empty(),
            t.kids() == Map::<u32, Seq<u32>>::empty(),
    {
        let t = HandleTable {
            slots: Vec::with_capacity(cap),
            free_head: None,
            len: 0,
            borrow_counts: HashMap::new(),
            children: HashMap::new(),
            parent_of: HashMap::new(),
            free_list: Ghost(Seq::empty()),
        };
        proof {
            assert(t.kids() =~= Map::<u32, Seq<u32>>::empty());
            lemma_acyclic_empty();
        }
        t
    }

    /// Allocates a slot for `value` and returns its handle: the next free
    /// slot with its current generation, or else a new slot at generation 0.
    pub fn allocate(&mut self, value: T) -> (r: Result<RawHandle, HandleError>)
        requires
            old(self).wf(),
            old(self).count() < u32::MAX,
        ensures
            final(self).wf(),
            (final(self).model(), r) == model_alloc(old(self).model(), value),
            final(self).borrows() == old(self).borrows(),
            final(self).parents() == old(self).parents(),
            final(self).kids() == old(self).kids(),
            match r {
                Ok(h) => {
                    &&& match old(self).next_free() {
                        Some(i) => h.index == i && h.generation == old(self).gen(i as int)
                            && final(self).slots_len() == old(self).slots_len(),
                        None => h.index == old(self).slots_len() && h.generation == 0
                            && final(self).slots_len() == old(self).slots_len() + 1,
                    }
                    &&& final(self).occupied(h.index as int)
                    &&& final(self).gen(h.index as int) == h.generation
                    &&& final(self).value(h.index as int) == value
                    &&& forall|j: int|
                        0 <= j < old(self).slots_len() && j != h.index ==> (final(self).occupied(j)
                            == old(self).occupied(j) && final(self).gen(j) == old(self).gen(j) && (
                        old(self).occupied(j) ==> final(self).value(j) == old(self).value(j)))
                    &&& final(self).count() == old(self).count() + 1
                },
                Err(e) => e == HandleError::TableFull && old(self).next_free() is None
                    && old(self).slots_len() > u32::MAX && *final(self) == *old(self),
            },
    {
        if let Some(free_idx) = self.free_head {
            let ghost fl = self.free_list@;
            proof {
                assert(free_link(self.slots@, fl, 0));
            }
            let idx = free_idx as usize;
            let (slot_gen, next) = match &self.slots[idx] {
                Slot::Free { generation, next_free } => (*generation, *next_free),
                Slot::Occupied { .. } => {
                    return Err(HandleError::InvalidIndex(free_idx));
                },
            };
            let ghost old_slots = self.slots@;
            let mut slot = Slot::Occupied { value, generation: slot_gen };
            self.slots.set_and_swap(idx, &mut slot);
            self.free_head = next;
            proof {
                lemma_occupied_count_update(old_slots, idx as int, Slot::Occupied { value, generation: slot_gen });
            }
            self.len = self.len + 1;
            self.free_list = Ghost(fl.drop_first());
            proof {
                lemma_free_list_pop(old_slots, fl, Slot::Occupied { value, generation: slot_gen });
            }
            Ok(RawHandle { index: free_idx, generation: slot_gen })
        } else {
            let idx = self.slots.len();
            if idx > 0xFFFF_FFFFusize {
                return Err(HandleError::TableFull);
            }
            let ghost old_slots = self.slots@;
            self.slots.push(Slot::Occupied { value, generation: 0 });
            proof {
                assert(self.slots@.drop_last() =~= old_slots);
            }
            self.len = self.len + 1;
            Ok(RawHandle { index: idx as u32, generation: 0 })
        }
    }

    fn validate_handle(&self, handle: RawHandle) -> (r: Result<(), HandleError>)
        ensures
            r == handle_check(*self, handle),
    {
        if handle.index as usize >= self.slots.len() {
            return Err(HandleError::InvalidIndex(handle.index));
        }
        match &self.slots[handle.index as usize] {
            Slot::Occupied { generation, .. } => {
                if *generation != handle.generation {
                    Err(
                        HandleError::StaleHandle {
                            index: handle.index,
                            expected: *generation,
                            actual: handle.generation,
                        },
                    )
                } else {
                    Ok(())
                }
            },
            Slot::Free { generation, .. } => Err(
                HandleError::StaleHandle {
                    index: handle.index,
                    expected: *generation,
                    actual: handle.generation,
                },
            ),
        }
    }

    /// The active borrow count of slot `i` (zero when none is recorded).
    fn borrow_count_at(&self, i: u32) -> (c: u32)
        ensures
            c == borrow_of(*self, i),
    {
        match self.borrow_counts.get(&i) {
            Some(c) => *c,
            None => 0,
        }
    }

    /// Frees the resource at `handle` and returns its value: the slot
    /// becomes free with its generation bumped, it leaves every list of
    /// children it is in, and its borrow count and parent/children records
    /// are dropped. Fails for an invalid or stale
    /// handle, or one with active borrows.
    pub fn free(&mut self, handle: RawHandle) -> (r: Result<T, HandleError>)
        requires
            old(self).wf(),
            handle_check(*old(self), handle) is Ok && borrow_of(*old(self), handle.index) == 0 ==> handle.generation < u32::MAX,
        ensures
            final(self).wf(),
            (final(self).model(), r) == model_free(old(self).model(), handle),
            match handle_check(*old(self), handle) {
                Err(e) => r == Err::<T, HandleError>(e) && *final(self) == *old(self),
                Ok(_) => if borrow_of(*old(self), handle.index) > 0 {
                    r == Err::<T, HandleError>(
                        HandleError::ActiveBorrows {
                            index: handle.index,
                            count: borrow_of(*old(self), handle.index),
                        },
                    ) && *final(self) == *old(self)
                } else {
                    &&& r == Ok::<T, HandleError>(old(self).value(handle.index as int))
                    &&& !final(self).occupied(handle.index as int)
                    &&& final(self).gen(handle.index as int) == handle.generation + 1
                    &&& final(self).next_free() == Some(handle.index)
                    &&& final(self).same_except(old(self), handle.index as int)
                    &&& final(self).count() + 1 == old(self).count()
                    &&& final(self).borrows() == old(self).borrows().remove(handle.index)
                    &&& final(self).parents() == old(self).parents().remove(handle.index)
                    &&& final(self).kids() == kids_after_free(old(self).kids(), handle.index)
                },
            },
    {
        match self.validate_handle(handle) {
            Ok(()) => {},
            Err(e) => {
                return Err(e);
            },
        }
        let borrow_count = self.borrow_count_at(handle.index);
        if borrow_count > 0 {
            return Err(HandleError::ActiveBorrows { index: handle.index, count: borrow_count });
        }
        let ghost k0 = self.kids();
        let ghost p0 = self.parent_of@;
        let n = self.slots.len();
        let mut p: usize = 0;
        while p < n
            invariant
                p <= n,
                n == self.slots@.len(),
                self.slots@ == old(self).slots@,
                self.free_head == old(self).free_head,
                self.len == old(self).len,
                self.free_list == old(self).free_list,
                self.borrow_counts@ == old(self).borrow_counts@,
                self.parent_of@ == p0,
                k0 == old(self).kids(),
                kids_in_range(k0, n as nat),
                self.kids().dom() == k0.dom(),
                forall|q: u32| #[trigger] k0.contains_key(q) ==> self.kids()[q] == if (q as int) < p {
                    drop_item(k0[q], handle.index)
                } else {
                    k0[q]
                },
            decreases n - p,
        {
            if p <= 0xFFFF_FFFFusize {
                let key = p as u32;
                let ghost kb = self.kids();
                let updated = match self.children.get(&key) {
                    Some(v) => {
                        proof {
                            assert(kb.contains_key(key));
                            assert(kb[key] == v@);
                        }
                        Some(without(v, handle.index))
                    },
                    None => None,
                };
                match updated {
                    Some(u) => {
                        let ghost uv = u@;
                        self.children.insert(key, u);
                        proof {
                            assert(self.kids() =~= kb.insert(key, uv));
                        }
                    },
                    None => {},
                }
            }
            p = p + 1;
        }
        proof {
            assert(self.kids() =~= kids_drop_all(k0, handle.index));
        }
        let idx = handle.index as usize;
        let ghost old_slots = self.slots@;
        let ghost fl = self.free_list@;
        let mut old_slot = Slot::Free { generation: handle.generation + 1, next_free: self.free_head };
        let ghost new_slot = old_slot;
        self.slots.set_and_swap(idx, &mut old_slot);
        let value = match old_slot {
            Slot::Occupied { value, .. } => value,
            Slot::Free { .. } => {
                proof {
                    assert(false);
                }
                return Err(HandleError::AlreadyFreed(handle.index));
            },
        };
        proof {
            lemma_occupied_count_update(old_slots, idx as int, new_slot);
            lemma_occupied_count_bound(old_slots, idx as int);
        }
        self.free_head = Some(handle.index);
        self.len = self.len - 1;
        self.free_list = Ghost(seq![handle.index] + fl);
        proof {
            lemma_free_list_push(old_slots, fl, handle.index, (handle.generation + 1) as u32);
            assert(self.slots@ == old_slots.update(idx as int, new_slot));
        }
        self.borrow_counts.remove(&handle.index);
        proof {
            lemma_acyclic_remove(self.parent_of@, handle.index);
        }
        let ghost k1 = self.kids();
        self.parent_of.remove(&handle.index);
        self.children.remove(&handle.index);
        proof {
            assert(self.kids() =~= k1.remove(handle.index));
            assert(self.parent_of@ =~= p0.remove(handle.index));
            assert(self.kids() =~= kids_after_free(k0, handle.index));
            lemma_kids_after_free_range(k0, handle.index, self.slots@.len());
        }
        Ok(value)
    }

    /// Gets a reference to the value behind `handle`.
    pub fn get(&self, handle: RawHandle) -> (r: Result<&T, HandleError>)
        ensures
            match handle_check(*self, handle) {
                Err(e) => r matches Err(e2) && e2 == e,
                Ok(_) => r matches Ok(v) && *v == self.value(handle.index as int),
            },
    {
        match self.validate_handle(handle) {
            Ok(()) => {},
            Err(e) => {
                return Err(e);
            },
        }
        match &self.slots[handle.index as usize] {
            Slot::Occupied { value, .. } => Ok(value),
            Slot::Free { .. } => Err(HandleError::AlreadyFreed(handle.index)),
        }
    }

    /// Gets a mutable reference to the value behind `handle`.
    #[verifier::rlimit(40)]
    pub fn get_mut(&mut self, handle: RawHandle) -> (r: Result<&mut T, HandleError>)
        requires
            old(self).wf(),
        ensures
            handle_check(*old(self), handle) matches Err(e) ==> (r matches Err(e2) && e2 == e
                && *final(self) == *old(self)),
            handle_check(*old(self), handle) is Ok ==> r is Ok,
            r matches Ok(v) ==> *v == old(self).value(handle.index as int),
            r matches Ok(v) ==> final(self).value(handle.index as int) == *final(v),
            r is Ok ==> final(self).wf(),
            r is Ok ==> final(self).occupied(handle.index as int),
            r is Ok ==> final(self).gen(handle.index as int) == handle.generation,
            r is Ok ==> final(self).same_except(old(self), handle.index as int),
            r is Ok ==> final(self).count() == old(self).count(),
            r is Ok ==> final(self).next_free() == old(self).next_free(),
            r is Ok ==> final(self).borrows() == old(self).borrows(),
            r is Ok ==> final(self).parents() == old(self).parents(),
            r is Ok ==> final(self).kids() == old(self).kids(),
    {
        match self.validate_handle(handle) {
            Ok(()) => {},
            Err(e) => {
                return Err(e);
            },
        }
        let idx = handle.index as usize;
        proof {
            let slots = self.slots@;
            let fl = self.free_list@;
            assert forall|k: int| 0 <= k < fl.len() implies fl[k] != handle.index by {
                assert(free_link(slots, fl, k));
            }
            assert forall|x: Slot<T>|
                #![trigger slots.update(idx as int, x)]
                x is Occupied implies occupied_count(slots.update(idx as int, x)) == occupied_count(
                    slots,
                ) && free_list_ok(slots.update(idx as int, x), fl) by {
                lemma_occupied_count_update(slots, idx as int, x);
                lemma_free_list_kept(slots, fl, idx as int, x);
            }
        }
        match &mut self.slots[idx] {
            Slot::Occupied { value, .. } => Ok(value),
            Slot::Free { .. } => Err(HandleError::AlreadyFreed(handle.index)),
        }
    }

    /// Acquires a borrow on the handle, incrementing its count; while
    /// borrows are active the handle cannot be freed.
    pub fn borrow(&mut self, handle: RawHandle) -> (r: Result<(), HandleError>)
        requires
            old(self).wf(),
            borrow_of(*old(self), handle.index) < u32::MAX,
        ensures
            final(self).wf(),
            r == handle_check(*old(self), handle),
            r is Err ==> *final(self) == *old(self),
            r is Ok ==> final(self).borrows() == old(self).borrows().insert(
                handle.index,
                (borrow_of(*old(self), handle.index) + 1) as u32,
            ),
            final(self).same_except(old(self), -1),
            final(self).count() == old(self).count(),
            final(self).next_free() == old(self).next_free(),
            final(self).parents() == old(self).parents(),
            final(self).kids() == old(self).kids(),
    {
        match self.validate_handle(handle) {
            Ok(()) => {},
            Err(e) => {
                return Err(e);
            },
        }
        let c = self.borrow_count_at(handle.index);
        self.borrow_counts.insert(handle.index, c + 1);
        Ok(())
    }

    /// Releases a borrow on the handle, decrementing its count (a count
    /// that reaches zero is dropped).
    pub fn release_borrow(&mut self, handle: RawHandle) -> (r: Result<(), HandleError>)
        requires
            old(self).wf(),
        ensures
            final(self).wf(),
            r == handle_check(*old(self), handle),
            r is Err ==> *final(self) == *old(self),
            r is Ok ==> final(self).borrows() == if borrow_of(*old(self), handle.index) > 1 {
                old(self).borrows().insert(
                    handle.index,
                    (borrow_of(*old(self), handle.index) - 1) as u32,
                )
            } else if borrow_of(*old(self), handle.index) == 1 {
                old(self).borrows().remove(handle.index)
            } else {
                old(self).borrows()
            },
            final(self).same_except(old(self), -1),
            final(self).count() == old(self).count(),
            final(self).next_free() == old(self).next_free(),
            final(self).parents() == old(self).parents(),
            final(self).kids() == old(self).kids(),
    {
        match self.validate_handle(handle) {
            Ok(()) => {},
            Err(e) => {
                return Err(e);
            },
        }
        match self.borrow_counts.get(&handle.index) {
            Some(c) => {
                let c = *c;
                if c > 0 {
                    if c - 1 == 0 {
                        self.borrow_counts.remove(&handle.index);
                    } else {
                        self.borrow_counts.insert(handle.index, c - 1);
                    }
                }
            },
            None => {},
        }
        Ok(())
    }

    /// Returns the number of active borrows on a handle.
    pub fn borrow_count(&self, handle: RawHandle) -> (r: Result<u32, HandleError>)
        ensures
            match handle_check(*self, handle) {
                Err(e) => r == Err::<u32, HandleError>(e),
                Ok(_) => r == Ok::<u32, HandleError>(borrow_of(*self, handle.index)),
            },
    {
        match self.validate_handle(handle) {
            Ok(()) => {},
            Err(e) => {
                return Err(e);
            },
        }
        Ok(self.borrow_count_at(handle.index))
    }

    /// Whether `ancestor_idx` is `descendant_idx` or one of its ancestors.
    fn is_ancestor(&self, ancestor_idx: u32, descendant_idx: u32) -> (r: bool)
        requires
            self.wf(),
        ensures
            r == is_ancestor_of(self.parents(), ancestor_idx, descendant_idx),
    {
        let ghost pm = self.parent_of@;
        proof {
            assert(has_root(pm, descendant_idx));
        }
        let ghost n0 = choose|n: nat| !pm.contains_key(#[trigger] walk_up(pm, descendant_idx, n));
        let mut current = descendant_idx;
        let ghost mut k: nat = 0;
        loop
            invariant
                self.wf(),
                pm == self.parent_of@,
                !pm.contains_key(walk_up(pm, descendant_idx, n0)),
                current == walk_up(pm, descendant_idx, k),
                k <= n0,
                forall|j: nat| j < k ==> #[trigger] walk_up(pm, descendant_idx, j) != ancestor_idx,
            decreases n0 - k,
        {
            if current == ancestor_idx {
                return true;
            }
            match self.parent_of.get(&current) {
                Some(parent) => {
                    proof {
                        lemma_walk_split(pm, descendant_idx, k, 1);
                        assert(walk_up(pm, current, 1) == walk_up(pm, step_up(pm, current), 0));
                        assert(step_up(pm, current) == *parent);
                        if k == n0 {
                            assert(false);
                        }
                        k = k + 1;
                    }
                    current = *parent;
                },
                None => {
                    proof {
                        assert forall|j: nat| #[trigger] walk_up(pm, descendant_idx, j) != ancestor_idx by {
                            if j >= k {
                                lemma_walk_stays(pm, descendant_idx, k, j);
                            }
                        }
                    }
                    return false;
                },
            }
        }
    }

    /// Whether `to` can be reached from `from` through the children records:
    /// a search that marks each index once.
    fn reaches(&self, from: u32, to: u32) -> (r: bool)
        requires
            self.wf(),
            (from as int) < self.slots@.len(),
        ensures
            r == kids_reach(self.kids(), from, to),
    {
        let ghost k = self.kids();
        let n = self.slots.len();
        let mut visited: Vec<bool> = Vec::new();
        let mut i: usize = 0;
        while i < n
            invariant
                i <= n,
                visited@.len() == i,
                forall|j: int| 0 <= j < i ==> !visited@[j],
            decreases n - i,
        {
            visited.push(false);
            i = i + 1;
        }
        visited.set(from as usize, true);
        let mut stack: Vec<u32> = Vec::new();
        stack.push(from);
        proof {
            lemma_reach_refl(k, from);
            assert forall|x: int| 0 <= x < n && #[trigger] visited@[x] implies kids_reach(k, from, x as u32) by {
                assert(x == from as int);
            }
            assert(stack@[0] == from);
            assert forall|x: u32| (x as int) < n && #[trigger] visited@[x as int] implies stack@.contains(x) by {
                assert(x == from);
            }
        }
        while stack.len() > 0
            invariant
                k == self.kids(),
                self.wf(),
                n == self.slots@.len(),
                visited@.len() == n,
                (from as int) < n,
                visited@[from as int],
                forall|x: int| 0 <= x < n && #[trigger] visited@[x] ==> kids_reach(k, from, x as u32),
                forall|j: int| 0 <= j < stack@.len() ==> (#[trigger] stack@[j] as int) < n && visited@[stack@[j] as int],
                stack@.no_duplicates(),
                forall|x: u32| (x as int) < n && #[trigger] visited@[x as int] && !stack@.contains(x) ==> x != to,
                forall|x: u32, c: u32| (x as int) < n && visited@[x as int] && !stack@.contains(x)
                    && #[trigger] kids_of(k, x).contains(c) ==> (c as int) < n && visited@[c as int],
            decreases false_count(visited@), stack@.len(),
        {
            let ghost fc0 = false_count(visited@);
            let ghost sl0 = stack@.len();
            let ghost st0 = stack@;
            let x = stack.pop().unwrap();
            proof {
                assert(st0 == stack@.push(x));
                assert(st0[st0.len() - 1] == x);
                assert(!stack@.contains(x)) by {
                    if stack@.contains(x) {
                        let j = choose|j: int| 0 <= j < stack@.len() && stack@[j] == x;
                        assert(st0[j] == st0[st0.len() - 1]);
                    }
                }
                assert forall|j: int| 0 <= j < stack@.len() implies (#[trigger] stack@[j] as int) < n && visited@[stack@[j] as int] by {
                    assert(stack@[j] == st0[j]);
                }
                assert forall|y: u32| stack@.contains(y) implies st0.contains(y) by {
                    let j = choose|j: int| 0 <= j < stack@.len() && stack@[j] == y;
                    assert(st0[j] == y);
                }
            }
            if x == to {
                return true;
            }
            let ghost kx = kids_of(k, x);
            match self.children.get(&x) {
                Some(ks) => {
                    proof {
                        assert(k.contains_key(x));
                        assert(ks@ == kx);
                    }
                    let mut j: usize = 0;
                    while j < ks.len()
                        invariant
                            k == self.kids(),
                            self.wf(),
                            ks@ == kx,
                            kx == kids_of(k, x),
                            k.contains_key(x),
                            n == self.slots@.len(),
                            (x as int) < n,
                            x != to,
                            (from as int) < n,
                            visited@[from as int],
                            visited@.len() == n,
                            visited@[x as int],
                            !stack@.contains(x),
                            j <= ks@.len(),
                            forall|q: int| 0 <= q < j ==> visited@[#[trigger] ks@[q] as int],
                            forall|xx: int| 0 <= xx < n && #[trigger] visited@[xx] ==> kids_reach(k, from, xx as u32),
                            forall|q: int| 0 <= q < stack@.len() ==> (#[trigger] stack@[q] as int) < n && visited@[stack@[q] as int],
                            stack@.no_duplicates(),
                            forall|y: u32| (y as int) < n && #[trigger] visited@[y as int] && !stack@.contains(y) && y != x ==> y != to,
                            forall|y: u32, c: u32| (y as int) < n && visited@[y as int] && !stack@.contains(y) && y != x
                                && #[trigger] kids_of(k, y).contains(c) ==> (c as int) < n && visited@[c as int],
                            false_count(visited@) < fc0 || (false_count(visited@) == fc0 && stack@.len() < sl0),
                        decreases ks@.len() - j,
                    {
                        let y = ks[j];
                        proof {
                            assert(k[x][j as int] == y);
                        }
                        if !visited[y as usize] {
                            let ghost v0 = visited@;
                            let ghost s0 = stack@;
                            proof {
                                lemma_false_count_set(v0, y as int);
                                assert(kx.contains(y));
                                lemma_reach_extend(k, from, x, y);
                            }
                            visited.set(y as usize, true);
                            stack.push(y);
                            proof {
                                assert(!s0.contains(y));
                                assert forall|q: int| 0 <= q < stack@.len() implies (#[trigger] stack@[q] as int) < n && visited@[stack@[q] as int] by {
                                    if q < s0.len() {
                                        assert(stack@[q] == s0[q]);
                                    }
                                }
                                assert forall|a: int, b: int| 0 <= a < b < stack@.len() implies stack@[a] != stack@[b] by {
                                    assert(stack@[a] == s0[a]);
                                    if b == s0.len() {
                                        assert(s0.contains(s0[a]));
                                    } else {
                                        assert(stack@[b] == s0[b]);
                                    }
                                }
                                assert(stack@.no_duplicates());
                                assert(!stack@.contains(x)) by {
                                    if stack@.contains(x) {
                                        let q = choose|q: int| 0 <= q < stack@.len() && stack@[q] == x;
                                        if q < s0.len() {
                                            assert(s0[q] == x);
                                        }
                                    }
                                }
                                assert forall|yy: u32| stack@.contains(yy) <== s0.contains(yy) by {
                                    if s0.contains(yy) {
                                        let q = choose|q: int| 0 <= q < s0.len() && s0[q] == yy;
                                        assert(stack@[q] == yy);
                                    }
                                }
                                assert(stack@[s0.len() as int] == y);
                                assert forall|z: u32| (z as int) < n && #[trigger] visited@[z as int] && !stack@.contains(z) && z != x implies z != to by {
                                    assert(z != y);
                                    assert(v0[z as int]);
                                    assert(!s0.contains(z));
                                }
                                assert forall|z: u32, c: u32| (z as int) < n && visited@[z as int] && !stack@.contains(z) && z != x
                                    && #[trigger] kids_of(k, z).contains(c) implies (c as int) < n && visited@[c as int] by {
                                    assert(z != y);
                                    assert(v0[z as int]);
                                    assert(!s0.contains(z));
                                }
                            }
                        }
                        j = j + 1;
                    }
                },
                None => {
                    proof {
                        assert(kx == Seq::<u32>::empty());
                    }
                },
            }
            proof {
                assert forall|c: u32| #[trigger] kids_of(k, x).contains(c) implies (c as int) < n && visited@[c as int] by {
                    let q = choose|q: int| 0 <= q < kx.len() && kx[q] == c;
                }
            }
        }
        proof {
            assert forall|p: Seq<u32>| #[trigger] kids_path(k, p) && p[0] == from implies p.last() != to by {
                lemma_closed_reach(k, visited@, p);
            }
        }
        false
    }

    /// Registers `child` as a nested resource of `parent`: it joins the
    /// parent's children and records the parent. Fails for an invalid or
    /// stale handle, or when the new edge would close a cycle: `child` is
    /// `parent`, one of its recorded ancestors, or `parent` can be reached
    /// from `child` through the children records.
    pub fn add_child(&mut self, parent: RawHandle, child: RawHandle) -> (r: Result<(), HandleError>)
        requires
            old(self).wf(),
        ensures
            final(self).wf(),
            final(self).model() == (TableModel {
                parents: final(self).parents(),
                kids: final(self).kids(),
                ..old(self).model()
            }),
            final(self).same_except(old(self), -1),
            final(self).count() == old(self).count(),
            final(self).next_free() == old(self).next_free(),
            final(self).borrows() == old(self).borrows(),
            match (handle_check(*old(self), parent), handle_check(*old(self), child)) {
                (Err(e), _) => r == Err::<(), HandleError>(e) && *final(self) == *old(self),
                (Ok(_), Err(e)) => r == Err::<(), HandleError>(e) && *final(self) == *old(self),
                (Ok(_), Ok(_)) => if is_ancestor_of(old(self).parents(), child.index, parent.index) || kids_reach(
                    old(self).kids(),
                    child.index,
                    parent.index,
                ) {
                    r == Err::<(), HandleError>(
                        HandleError::CycleDetected { parent: parent.index, child: child.index },
                    ) && *final(self) == *old(self)
                } else {
                    &&& r is Ok
                    &&& final(self).parents() == old(self).parents().insert(child.index, parent.index)
                    &&& final(self).kids() == old(self).kids().insert(
                        parent.index,
                        kids_of(old(self).kids(), parent.index).push(child.index),
                    )
                },
            },
    {
        self.validate_handle(parent)?;
        self.validate_handle(child)?;
        if self.is_ancestor(child.index, parent.index) || self.reaches(child.index, parent.index) {
            return Err(HandleError::CycleDetected { parent: parent.index, child: child.index });
        }
        let ghost old_kids = self.kids();
        let mut list = match self.children.remove(&parent.index) {
            Some(v) => v,
            None => Vec::new(),
        };
        list.push(child.index);
        self.children.insert(parent.index, list);
        proof {
            lemma_acyclic_insert(self.parent_of@, child.index, parent.index);
        }
        self.parent_of.insert(child.index, parent.index);
        proof {
            assert(self.kids() =~= old_kids.insert(
                parent.index,
                kids_of(old_kids, parent.index).push(child.index),
            ));
        }
        Ok(())
    }

    /// Detaches `child` from `parent`: drops its parent record and removes
    /// it from the parent's children.
    fn detach(&mut self, parent: u32, child: u32)
        requires
            old(self).wf(),
        ensures
            final(self).wf(),
            final(self).model() == model_detach(old(self).model(), parent, child),
    {
        proof {
            lemma_acyclic_remove(self.parent_of@, child);
        }
        self.parent_of.remove(&child);
        let ghost k0 = self.kids();
        assert(k0 == old(self).model().kids);
        let filtered = match self.children.get(&parent) {
            Some(sib) => {
                proof {
                    assert(self.children@.contains_key(parent));
                    assert(k0[parent] == sib@);
                }
                Some(without(sib, child))
            },
            None => {
                proof {
                    assert(!k0.contains_key(parent));
                }
                None
            },
        };
        match filtered {
            Some(f) => {
                let ghost fv = f@;
                proof {
                    assert(k0.contains_key(parent));
                    assert(fv == drop_item(k0[parent], child));
                }
                self.children.insert(parent, f);
                proof {
                    assert(self.kids() =~= k0.insert(parent, fv));
                }
            },
            None => {
                proof {
                    assert(self.kids() == k0);
                }
            },
        }
        proof {
            assert(self.model().kids =~= model_detach(old(self).model(), parent, child).kids);
            lemma_kids_without_range(old(self).kids(), parent, child, self.slots@.len());
            assert(self.kids() == kids_without(old(self).kids(), parent, child));
        }
    }

    /// The handles of the resources nested under `index`, depth first: the
    /// children are pushed in order and the last pushed is visited first;
    /// free slots are skipped.
    fn collect_children_depth_first(&self, index: u32) -> (r: Vec<RawHandle>)
        requires
            dfs_finishes(self.model(), index),
        ensures
            r@ == descendants(self.model(), index),
    {
        let ghost m = self.model();
        let ghost init = kids_of(m.kids, index);
        let ghost n0 = choose|n: nat| #[trigger] dfs_run(m, init, Seq::empty(), n) is Some;
        let mut result: Vec<RawHandle> = Vec::new();
        let mut stack: Vec<u32> = Vec::new();
        match self.children.get(&index) {
            Some(kids) => {
                let mut j: usize = 0;
                while j < kids.len()
                    invariant
                        j <= kids@.len(),
                        stack@ == kids@.take(j as int),
                    decreases kids@.len() - j,
                {
                    stack.push(kids[j]);
                    proof {
                        assert(kids@.take(j + 1) =~= kids@.take(j as int).push(kids@[j as int]));
                    }
                    j = j + 1;
                }
                proof {
                    assert(kids@.take(j as int) =~= kids@);
                }
            },
            None => {},
        }
        proof {
            assert(stack@ =~= init);
        }
        let ghost mut fuel: nat = n0;
        while stack.len() > 0
            invariant
                m == self.model(),
                dfs_run(m, stack@, result@, fuel) == dfs_run(m, init, Seq::empty(), n0),
                dfs_run(m, init, Seq::empty(), n0) is Some,
            decreases fuel,
        {
            let ghost before = (stack@, result@);
            let idx = stack.pop().unwrap();
            proof {
                assert(stack@ =~= before.0.drop_last());
            }
            let ghost step = dfs_step(m, before.0, before.1);
            if (idx as usize) < self.slots.len() {
                match &self.slots[idx as usize] {
                    Slot::Occupied { generation, .. } => {
                        result.push(RawHandle { index: idx, generation: *generation });
                        match self.children.get(&idx) {
                            Some(gk) => {
                                let ghost s0 = stack@;
                                let mut j: usize = 0;
                                while j < gk.len()
                                    invariant
                                        j <= gk@.len(),
                                        stack@ == s0 + gk@.take(j as int),
                                    decreases gk@.len() - j,
                                {
                                    stack.push(gk[j]);
                                    proof {
                                        assert(gk@.take(j + 1) =~= gk@.take(j as int).push(gk@[j as int]));
                                        assert(s0 + gk@.take(j + 1) =~= (s0 + gk@.take(j as int)).push(gk@[j as int]));
                                    }
                                    j = j + 1;
                                }
                                proof {
                                    assert(gk@.take(j as int) =~= gk@);
                                    assert(kids_of(m.kids, idx) == gk@);
                                }
                            },
                            None => {
                                proof {
                                    assert(stack@ =~= stack@ + kids_of(m.kids, idx));
                                }
                            },
                        }
                    },
                    Slot::Free { .. } => {},
                }
            }
            proof {
                assert(stack@ == step.0 && result@ == step.1);
                fuel = (fuel - 1) as nat;
            }
        }
        result
    }

    /// Frees `handle` and every resource nested under it: the descendants
    /// first, deepest first, each detached from `handle` before it is
    /// freed, then `handle` itself. Returns the freed values in that order;
    /// stops at the first failure.
    pub fn free_recursive(&mut self, handle: RawHandle) -> (r: Result<Vec<T>, HandleError>)
        requires
            old(self).wf(),
            recursive_drop_ok(old(self).model(), handle),
        ensures
            final(self).wf(),
            final(self).model() == free_recursive_model(old(self).model(), handle).0,
            match free_recursive_model(old(self).model(), handle).1 {
                Ok(vals) => r matches Ok(v) && v@ == vals,
                Err(e) => r == Err::<Vec<T>, HandleError>(e),
            },
    {
        let ghost m0 = self.model();
        match self.validate_handle(handle) {
            Ok(()) => {},
            Err(e) => {
                return Err(e);
            },
        }
        assert(model_check(m0, handle) is Ok);
        let cs = self.collect_children_depth_first(handle.index);
        assert(cs@ == descendants(m0, handle.index));
        let ghost target = free_children(m0, handle.index, cs@, Seq::empty());
        let mut freed: Vec<T> = Vec::new();
        let mut i: usize = cs.len();
        proof {
            assert(cs@.take(i as int) =~= cs@);
        }
        while i > 0
            invariant
                i <= cs@.len(),
                self.wf(),
                forall|k: int| 0 <= k < cs@.len() ==> (#[trigger] cs@[k]).generation < u32::MAX,
                free_children(self.model(), handle.index, cs@.take(i as int), freed@) == target,
                model_check(m0, handle) is Ok,
                m0 == old(self).model(),
                cs@ == descendants(m0, handle.index),
                target == free_children(m0, handle.index, cs@, Seq::empty()),
            decreases i,
        {
            i = i - 1;
            let c = cs[i];
            proof {
                assert(cs@.take(i + 1).drop_last() =~= cs@.take(i as int));
            }
            let ghost cur = self.model();
            let ghost acc = freed@;
            self.detach(handle.index, c.index);
            let res = self.free(c);
            proof {
                assert(cs@.take(i + 1).last() == c);
                assert(free_children(cur, handle.index, cs@.take(i + 1), acc) == match res {
                    Ok(v) => free_children(self.model(), handle.index, cs@.take(i as int), acc.push(v)),
                    Err(HandleError::AlreadyFreed(_)) => free_children(self.model(), handle.index, cs@.take(i as int), acc),
                    Err(e) => (self.model(), Err(e)),
                });
            }
            match res {
                Ok(v) => {
                    freed.push(v);
                },
                Err(HandleError::AlreadyFreed(x)) => {},
                Err(e) => {
                    proof {
                        assert(target == (self.model(), Err::<Seq<T>, HandleError>(e)));
                        assert(free_recursive_model(m0, handle) == (self.model(), Err::<Seq<T>, HandleError>(e)));
                    }
                    return Err(e);
                },
            }
        }
        match self.free(handle) {
            Ok(v) => {
                freed.push(v);
                Ok(freed)
            },
            Err(e) => Err(e),
        }
    }

    /// Returns the number of currently occupied slots.
    pub fn len(&self) -> (n: u32)
        ensures
            n == self.count(),
    {
        self.len
    }

    /// Returns `true` if the table has no occupied slots.
    pub fn is_empty(&self) -> (b: bool)
        ensures
            b == (self.count() == 0),
    {
        self.len == 0
    }

    /// Returns the total number of slots (occupied + free).
    pub fn capacity(&self) -> (n: usize)
        ensures
            n == self.slots_len(),
    {
        self.slots.len()
    }
}

/// What validating `h` against `t` gives: an index past the slots is
/// invalid; a free slot, or one of another generation, makes it stale.
pub open spec fn handle_check<T>(t: HandleTable<T>, h: RawHandle) -> Result<(), HandleError> {
    if h.index >= t.slots_len() {
        Err(HandleError::InvalidIndex(h.index))
    } else if t.occupied(h.index as int) && t.gen(h.index as int) == h.generation {
        Ok(())
    } else {
        Err(
            HandleError::StaleHandle {
                index: h.index,
                expected: t.gen(h.index as int),
                actual: h.generation,
            },
        )
    }
}

/// The children registered under `i` (none when it has no entry).
pub open spec fn kids_of(k: Map<u32, Seq<u32>>, i: u32) -> Seq<u32> {
    if k.contains_key(i) {
        k[i]
    } else {
        Seq::empty()
    }
}

/// The active borrow count of slot `i`.
pub open spec fn borrow_of<T>(t: HandleTable<T>, i: u32) -> u32 {
    if t.borrows().contains_key(i) {
        t.borrows()[i]
    } else {
        0
    }
}

impl<T> Default for HandleTable<T> {
    fn default() -> (t: Self)
        ensures
            t.wf(),
            t.model() == empty_model::<T>(),
            t.slots_len() == 0,
            t.count() == 0,
    {
        Self::new()
    }
}

// ═════════════════════════════════════════════════════════════════════
// Raw handle
// ═════════════════════════════════════════════════════════════════════

/// A raw handle: an `(index, generation)` pair.
#[derive(Debug, Clone, Copy, PartialEq, Eq, Hash, Structural)]
pub struct RawHandle {
    /// Slot index in the handle table.
    pub index: u32,
    /// Generation at the time the handle was issued.
    pub generation: u32,
}

impl RawHandle {
    /// Encodes the handle as one `u64`: the generation in the high 32 bits,
    /// the index in the low 32 bits.
    pub fn encode(&self) -> (r: u64)
        ensures
            r == self.generation as u64 * 0x1_0000_0000 + self.index as u64,
    {
        let g = self.generation as u64;
        let i = self.index as u64;
        let r = (g << 32u64) | i;
        assert(r == g * 0x1_0000_0000 + i) by (bit_vector)
            requires
                r == (g << 32u64) | i,
                g < 0x1_0000_0000,
                i < 0x1_0000_0000,
        ;
        r
    }

    /// Decodes a `u64` into a handle: the low 32 bits are the index, the
    /// high 32 bits the generation.
    pub fn decode(encoded: u64) -> (h: Self)
        ensures
            h.index == encoded % 0x1_0000_0000,
            h.generation == encoded / 0x1_0000_0000,
    {
        let lo = encoded & 0xFFFF_FFFFu64;
        let hi = encoded >> 32u64;
        assert(lo == encoded % 0x1_0000_0000 && hi == encoded / 0x1_0000_0000) by (bit_vector)
            requires
                lo == encoded & 0xFFFF_FFFFu64,
                hi == encoded >> 32u64,
        ;
        RawHandle { index: lo as u32, generation: hi as u32 }
    }

    /// The text `handle(index:genN)`.
    pub fn to_string(&self) -> (s: String)
        ensures
            s@ == "handle("@ + dec(self.index as nat) + ":gen"@ + dec(self.generation as nat) + ")"@,
    {
        let mut s = owned("handle(");
        push_dec(&mut s, self.index as u64);
        push_str(&mut s, ":gen");
        push_dec(&mut s, self.generation as u64);
        push_str(&mut s, ")");
        s
    }
}

/// Decoding an encoded handle gives the handle back.
pub proof fn law_handle_roundtrip(h: RawHandle)
    ensures
        ({
            let e = h.generation as u64 * 0x1_0000_0000 + h.index as u64;
            e % 0x1_0000_0000 == h.index && e / 0x1_0000_0000 == h.generation
        }),
{
    let g = h.generation as u64;
    let i = h.index as u64;
    assert((g * 0x1_0000_0000 + i) % 0x1_0000_0000 == i && (g * 0x1_0000_0000 + i) / 0x1_0000_0000
        == g) by (nonlinear_arith)
        requires
            g < 0x1_0000_0000,
            i < 0x1_0000_0000,
    ;
}

// ═════════════════════════════════════════════════════════════════════
// Own and borrow handles
// ═════════════════════════════════════════════════════════════════════

/// An owning handle to a resource of type `T` (`own<T>`): the holder is
/// responsible for eventually dropping the resource.
#[derive(Debug, PartialEq, Eq, Hash)]
pub struct OwnHandle<T> {
    raw: RawHandle,
    _marker: PhantomData<T>,
}

impl<T> Clone for OwnHandle<T> {
    fn clone(&self) -> (r: Self)
        ensures
            r.raw_view() == self.raw_view(),
    {
        OwnHandle { raw: self.raw, _marker: PhantomData }
    }
}

impl<T> Copy for OwnHandle<T> {

}

impl<T> OwnHandle<T> {
    /// The raw handle this wraps.
    pub closed spec fn raw_view(&self) -> RawHandle {
        self.raw
    }

    /// Creates a new owning handle from a raw handle.
    pub fn new(raw: RawHandle) -> (h: Self)
        ensures
            h.raw_view() == raw,
    {
        OwnHandle { raw, _marker: PhantomData }
    }

    /// Returns the underlying raw handle.
    pub fn raw(&self) -> (r: RawHandle)
        ensures
            r == self.raw_view(),
    {
        self.raw
    }

    /// Returns the slot index.
    pub fn index(&self) -> (i: u32)
        ensures
            i == self.raw_view().index,
    {
        self.raw.index
    }

    /// Returns the generation.
    pub fn generation(&self) -> (g: u32)
        ensures
            g == self.raw_view().generation,
    {
        self.raw.generation
    }

    /// The handle as text, `own<kind>(index:genN)`, where `kind` names
    /// the resource type.
    pub fn describe(&self, kind: &str) -> (s: String)
        ensures
            s@ == "own<"@ + kind@ + ">("@ + dec(self.raw_view().index as nat) + ":gen"@ + dec(
                self.raw_view().generation as nat,
            ) + ")"@,
    {
        let mut s = owned("own<");
        push_str(&mut s, kind);
        push_str(&mut s, ">(");
        push_dec(&mut s, self.raw.index as u64);
        push_str(&mut s, ":gen");
        push_dec(&mut s, self.raw.generation as u64);
        push_str(&mut s, ")");
        s
    }
}

/// A borrowed handle to a resource of type `T` (`borrow<T>`): the holder
/// may use the resource but must not drop it.
#[derive(Debug, PartialEq, Eq, Hash)]
pub struct BorrowHandle<T> {
    raw: RawHandle,
    _marker: PhantomData<T>,
}

impl<T> Clone for BorrowHandle<T> {
    fn clone(&self) -> (r: Self)
        ensures
            r.raw_view() == self.raw_view(),
    {
        BorrowHandle { raw: self.raw, _marker: PhantomData }
    }
}

impl<T> Copy for BorrowHandle<T> {

}

impl<T> BorrowHandle<T> {
    /// The raw handle this wraps.
    pub closed spec fn raw_view(&self) -> RawHandle {
        self.raw
    }

    /// Creates a new borrowed handle from a raw handle.
    pub fn new(raw: RawHandle) -> (h: Self)
        ensures
            h.raw_view() == raw,
    {
        BorrowHandle { raw, _marker: PhantomData }
    }

    /// Returns the underlying raw handle.
    pub fn raw(&self) -> (r: RawHandle)
        ensures
            r == self.raw_view(),
    {
        self.raw
    }

    /// Returns the slot index.
    pub fn index(&self) -> (i: u32)
        ensures
            i == self.raw_view().index,
    {
        self.raw.index
    }

    /// Returns the generation.
    pub fn generation(&self) -> (g: u32)
        ensures
            g == self.raw_view().generation,
    {
        self.raw.generation
    }

    /// The handle as text, `borrow<kind>(index:genN)`, where `kind` names
    /// the resource type.
    pub fn describe(&self, kind: &str) -> (s: String)
        ensures
            s@ == "borrow<"@ + kind@ + ">("@ + dec(self.raw_view().index as nat) + ":gen"@ + dec(
                self.raw_view().generation as nat,
            ) + ")"@,
    {
        let mut s = owned("borrow<");
        push_str(&mut s, kind);
        push_str(&mut s, ">(");
        push_dec(&mut s, self.raw.index as u64);
        push_str(&mut s, ":gen");
        push_dec(&mut s, self.raw.generation as u64);
        push_str(&mut s, ")");
        s
    }
}


// ═════════════════════════════════════════════════════════════════════
// Resource definitions: constructor, methods, statics
// ═════════════════════════════════════════════════════════════════════

/// A method signature for a resource.
#[derive(Debug, Clone)]
pub struct ResourceMethod {
    /// Method name (e.g., `"read"`, `"write"`).
    pub name: String,
    /// Number of parameters (excluding `self`).
    pub param_count: usize,
    /// Whether this is a static method (no `self` parameter).
    pub is_static: bool,
}

/// A resource type definition that constructs instances and dispatches
/// instance and static methods; instances live in its handle table.
pub struct ResourceDef<T> {
    /// Human-readable resource type name (e.g., `"File"`, `"TcpSocket"`).
    pub name: String,
    /// The handle table holding all live instances of this resource.
    pub table: HandleTable<T>,
    methods: Vec<(String, ResourceMethod)>,
    statics: Vec<(String, ResourceMethod)>,
}

/// A method descriptor named `name`.
pub open spec fn method_is(m: ResourceMethod, name: Seq<char>, param_count: usize, is_static: bool) -> bool {
    m.name@ == name && m.param_count == param_count && m.is_static == is_static
}

impl<T> ResourceDef<T> {
    /// The handle table of this definition.
    pub closed spec fn tbl(&self) -> HandleTable<T> {
        self.table
    }

    /// The resource type name.
    pub closed spec fn name_view(&self) -> Seq<char> {
        self.name@
    }

    /// Registered instance methods, by name.
    pub closed spec fn method_map(&self) -> Map<Seq<char>, ResourceMethod> {
        named_map(self.methods@)
    }

    /// Registered static methods, by name.
    pub closed spec fn static_map(&self) -> Map<Seq<char>, ResourceMethod> {
        named_map(self.statics@)
    }

    /// The definition's invariant: a well-formed table, one entry per method name.
    pub closed spec fn wf(&self) -> bool {
        self.table.wf() && keys_distinct(named_entries(self.methods@)) && keys_distinct(
            named_entries(self.statics@),
        )
    }

    /// Creates a new resource definition with the given type name.
    pub fn new(name: &str) -> (d: Self)
        ensures
            d.wf(),
            d.name_view() == name@,
            d.tbl().model() == empty_model::<T>(),
            d.tbl().slots_len() == 0,
            d.tbl().count() == 0,
            d.tbl().borrows() == Map::<u32, u32>::empty(),
            d.tbl().parents() == Map::<u32, u32>::empty(),
            d.tbl().kids() == Map::<u32, Seq<u32>>::empty(),
            d.method_map() == Map::<Seq<char>, ResourceMethod>::empty(),
            d.static_map() == Map::<Seq<char>, ResourceMethod>::empty(),
    {
        let d = ResourceDef {
            name: owned(name),
            table: HandleTable::new(),
            methods: Vec::new(),
            statics: Vec::new(),
        };
        proof {
            assert(named_entries(d.methods@) =~= Seq::empty());
            assert(named_entries(d.statics@) =~= Seq::empty());
        }
        d
    }

    /// Registers (or replaces) an instance method.
    pub fn register_method(&mut self, name: &str, param_count: usize)
        requires
            old(self).wf(),
        ensures
            final(self).wf(),
            final(self).name_view() == old(self).name_view(),
            final(self).tbl() == old(self).tbl(),
            final(self).static_map() == old(self).static_map(),
            final(self).method_map().dom() == old(self).method_map().dom().insert(name@),
            method_is(final(self).method_map()[name@], name@, param_count, false),
            forall|k: Seq<char>| k != name@ && old(self).method_map().contains_key(k)
                ==> final(self).method_map()[k] == old(self).method_map()[k],
    {
        let m = ResourceMethod { name: owned(name), param_count, is_static: false };
        named_put(&mut self.methods, owned(name), m);
    }

    /// Registers (or replaces) a static method.
    pub fn register_static(&mut self, name: &str, param_count: usize)
        requires
            old(self).wf(),
        ensures
            final(self).wf(),
            final(self).name_view() == old(self).name_view(),
            final(self).tbl() == old(self).tbl(),
            final(self).method_map() == old(self).method_map(),
            final(self).static_map().dom() == old(self).static_map().dom().insert(name@),
            method_is(final(self).static_map()[name@], name@, param_count, true),
            forall|k: Seq<char>| k != name@ && old(self).static_map().contains_key(k)
                ==> final(self).static_map()[k] == old(self).static_map()[k],
    {
        let m = ResourceMethod { name: owned(name), param_count, is_static: true };
        named_put(&mut self.statics, owned(name), m);
    }

    /// Looks up an instance method by name.
    pub fn get_method(&self, name: &str) -> (r: Option<&ResourceMethod>)
        requires
            self.wf(),
        ensures
            match r {
                Some(m) => self.method_map().contains_key(name@) && *m == self.method_map()[name@],
                None => !self.method_map().contains_key(name@),
            },
    {
        named_get(&self.methods, name)
    }

    /// Looks up a static method by name.
    pub fn get_static(&self, name: &str) -> (r: Option<&ResourceMethod>)
        requires
            self.wf(),
        ensures
            match r {
                Some(m) => self.static_map().contains_key(name@) && *m == self.static_map()[name@],
                None => !self.static_map().contains_key(name@),
            },
    {
        named_get(&self.statics, name)
    }

    /// Lists the registered instance method names, once each.
    pub fn method_names(&self) -> (r: Vec<&str>)
        requires
            self.wf(),
        ensures
            forall|k: Seq<char>| self.method_map().contains_key(k) <==> exists|i: int|
                0 <= i < r@.len() && (#[trigger] r@[i])@ == k,
            r@.len() == self.method_map().len(),
    {
        let r = named_keys(&self.methods);
        proof {
            lemma_names_listed(self.methods@, r@);
        }
        r
    }

    /// Lists the registered static method names, once each.
    pub fn static_names(&self) -> (r: Vec<&str>)
        requires
            self.wf(),
        ensures
            forall|k: Seq<char>| self.static_map().contains_key(k) <==> exists|i: int|
                0 <= i < r@.len() && (#[trigger] r@[i])@ == k,
            r@.len() == self.static_map().len(),
    {
        let r = named_keys(&self.statics);
        proof {
            lemma_names_listed(self.statics@, r@);
        }
        r
    }

    /// Constructs a new resource instance, allocating a handle.
    pub fn construct(&mut self, value: T) -> (r: Result<OwnHandle<T>, HandleError>)
        requires
            old(self).wf(),
            old(self).tbl().count() < u32::MAX,
        ensures
            final(self).wf(),
            final(self).name_view() == old(self).name_view(),
            final(self).method_map() == old(self).method_map(),
            final(self).static_map() == old(self).static_map(),
            final(self).tbl().model() == model_alloc(old(self).tbl().model(), value).0,
            r matches Ok(h) ==> model_alloc(old(self).tbl().model(), value).1 == Ok::<RawHandle, HandleError>(h.raw_view()),
            match r {
                Ok(h) => {
                    &&& handle_check(final(self).tbl(), h.raw_view()) is Ok
                    &&& final(self).tbl().value(h.raw_view().index as int) == value
                    &&& final(self).tbl().count() == old(self).tbl().count() + 1
                    &&& match old(self).tbl().next_free() {
                        Some(i) => h.raw_view().index == i && h.raw_view().generation == old(self).tbl().gen(i as int),
                        None => h.raw_view().index == old(self).tbl().slots_len()
                            && h.raw_view().generation == 0,
                    }
                    &&& forall|j: int|
                        0 <= j < old(self).tbl().slots_len() && j != h.raw_view().index ==> (final(self).tbl().occupied(j) == old(self).tbl().occupied(j) && final(self).tbl().gen(j)
                            == old(self).tbl().gen(j) && (old(self).tbl().occupied(j) ==> final(self).tbl().value(j) == old(self).tbl().value(j)))
                    &&& final(self).tbl().borrows() == old(self).tbl().borrows()
                },
                Err(e) => e == HandleError::TableFull && final(self).tbl() == old(self).tbl(),
            },
    {
        let raw = self.table.allocate(value)?;
        Ok(OwnHandle::new(raw))
    }

    /// Drops a resource by its owning handle, returning its value.
    pub fn drop_resource(&mut self, handle: OwnHandle<T>) -> (r: Result<T, HandleError>)
        requires
            old(self).wf(),
            model_check(old(self).tbl().model(), handle.raw_view()) is Ok && model_borrow(
                old(self).tbl().model(),
                handle.raw_view().index,
            ) == 0 ==> handle.raw_view().generation < u32::MAX,
        ensures
            final(self).wf(),
            final(self).name_view() == old(self).name_view(),
            final(self).method_map() == old(self).method_map(),
            final(self).static_map() == old(self).static_map(),
            free_outcome(old(self).tbl(), final(self).tbl(), handle.raw_view(), r),
            (final(self).tbl().model(), r) == model_free(old(self).tbl().model(), handle.raw_view()),
    {
        self.table.free(handle.raw())
    }

    /// Drops a resource with everything nested under it, the descendants
    /// first; returns the freed values in the order they were freed.
    pub fn drop_recursive(&mut self, handle: OwnHandle<T>) -> (r: Result<Vec<T>, HandleError>)
        requires
            old(self).wf(),
            recursive_drop_ok(old(self).tbl().model(), handle.raw_view()),
        ensures
            final(self).wf(),
            final(self).name_view() == old(self).name_view(),
            final(self).method_map() == old(self).method_map(),
            final(self).static_map() == old(self).static_map(),
            final(self).tbl().model() == free_recursive_model(old(self).tbl().model(), handle.raw_view()).0,
            match free_recursive_model(old(self).tbl().model(), handle.raw_view()).1 {
                Ok(vals) => r matches Ok(v) && v@ == vals,
                Err(e) => r == Err::<Vec<T>, HandleError>(e),
            },
    {
        self.table.free_recursive(handle.raw())
    }

    /// Checks an instance method call: the handle is live and the method
    /// exists (else `InvalidIndex` with the handle's index).
    pub fn validate_method_call(&self, handle: OwnHandle<T>, method_name: &str) -> (r: Result<
        &ResourceMethod,
        HandleError,
    >)
        requires
            self.wf(),
        ensures
            match handle_check(self.tbl(), handle.raw_view()) {
                Err(e) => r matches Err(e2) && e2 == e,
                Ok(_) => if self.method_map().contains_key(method_name@) {
                    r matches Ok(m) && *m == self.method_map()[method_name@]
                } else {
                    r matches Err(e2) && e2 == HandleError::InvalidIndex(handle.raw_view().index)
                },
            },
    {
        self.table.validate_handle(handle.raw())?;
        match named_get(&self.methods, method_name) {
            Some(m) => Ok(m),
            None => Err(HandleError::InvalidIndex(handle.index())),
        }
    }

    /// Gets the resource value for method dispatch.
    pub fn get_resource(&self, handle: OwnHandle<T>) -> (r: Result<&T, HandleError>)
        ensures
            match handle_check(self.tbl(), handle.raw_view()) {
                Err(e) => r matches Err(e2) && e2 == e,
                Ok(_) => r matches Ok(v) && *v == self.tbl().value(handle.raw_view().index as int),
            },
    {
        self.table.get(handle.raw())
    }

    /// Gets the resource value mutably for method dispatch.
    pub fn get_resource_mut(&mut self, handle: OwnHandle<T>) -> (r: Result<&mut T, HandleError>)
        requires
            old(self).wf(),
        ensures
            handle_check(old(self).tbl(), handle.raw_view()) matches Err(e) ==> (r matches Err(e2)
                && e2 == e && *final(self) == *old(self)),
            handle_check(old(self).tbl(), handle.raw_view()) is Ok ==> r is Ok,
            r matches Ok(v) ==> *v == old(self).tbl().value(handle.raw_view().index as int),
            r matches Ok(v) ==> final(self).tbl().value(handle.raw_view().index as int) == *final(v),
            r is Ok ==> final(self).wf(),
            r is Ok ==> final(self).name_view() == old(self).name_view(),
            r is Ok ==> final(self).method_map() == old(self).method_map(),
            r is Ok ==> final(self).static_map() == old(self).static_map(),
            r is Ok ==> final(self).tbl().occupied(handle.raw_view().index as int),
            r is Ok ==> final(self).tbl().gen(handle.raw_view().index as int)
                == handle.raw_view().generation,
            r is Ok ==> final(self).tbl().same_except(&old(self).tbl(), handle.raw_view().index as int),
            r is Ok ==> final(self).tbl().count() == old(self).tbl().count(),
            r is Ok ==> final(self).tbl().borrows() == old(self).tbl().borrows(),
    {
        self.table.get_mut(handle.raw())
    }

    /// Creates a `BorrowHandle` from an `OwnHandle`, incrementing the borrow count.
    pub fn borrow_handle(&mut self, handle: OwnHandle<T>) -> (r: Result<BorrowHandle<T>, HandleError>)
        requires
            old(self).wf(),
            borrow_of(old(self).tbl(), handle.raw_view().index) < u32::MAX,
        ensures
            final(self).wf(),
            final(self).name_view() == old(self).name_view(),
            final(self).method_map() == old(self).method_map(),
            final(self).static_map() == old(self).static_map(),
            final(self).tbl().same_except(&old(self).tbl(), -1),
            final(self).tbl().count() == old(self).tbl().count(),
            match handle_check(old(self).tbl(), handle.raw_view()) {
                Err(e) => r matches Err(e2) && e2 == e && final(self).tbl() == old(self).tbl(),
                Ok(_) => r matches Ok(b) && b.raw_view() == handle.raw_view() && final(self).tbl().borrows()
                    == old(self).tbl().borrows().insert(
                    handle.raw_view().index,
                    (borrow_of(old(self).tbl(), handle.raw_view().index) + 1) as u32,
                ),
            },
    {
        self.table.borrow(handle.raw())?;
        Ok(BorrowHandle::new(handle.raw()))
    }

    /// Releases a borrow obtained via `borrow_handle`.
    pub fn release_borrow(&mut self, handle: BorrowHandle<T>) -> (r: Result<(), HandleError>)
        requires
            old(self).wf(),
        ensures
            final(self).wf(),
            final(self).name_view() == old(self).name_view(),
            final(self).method_map() == old(self).method_map(),
            final(self).static_map() == old(self).static_map(),
            final(self).tbl().same_except(&old(self).tbl(), -1),
            final(self).tbl().count() == old(self).tbl().count(),
            r == handle_check(old(self).tbl(), handle.raw_view()),
            r is Err ==> final(self).tbl() == old(self).tbl(),
            r is Ok ==> final(self).tbl().borrows() == if borrow_of(
                old(self).tbl(),
                handle.raw_view().index,
            ) > 1 {
                old(self).tbl().borrows().insert(
                    handle.raw_view().index,
                    (borrow_of(old(self).tbl(), handle.raw_view().index) - 1) as u32,
                )
            } else if borrow_of(old(self).tbl(), handle.raw_view().index) == 1 {
                old(self).tbl().borrows().remove(handle.raw_view().index)
            } else {
                old(self).tbl().borrows()
            },
    {
        self.table.release_borrow(handle.raw())
    }

    /// Registers `child` as a nested resource of `parent`.
    pub fn add_child(&mut self, parent: OwnHandle<T>, child: OwnHandle<T>) -> (r: Result<(), HandleError>)
        requires
            old(self).wf(),
        ensures
            final(self).wf(),
            final(self).tbl().model() == (TableModel {
                parents: final(self).tbl().parents(),
                kids: final(self).tbl().kids(),
                ..old(self).tbl().model()
            }),
            final(self).name_view() == old(self).name_view(),
            final(self).method_map() == old(self).method_map(),
            final(self).static_map() == old(self).static_map(),
            final(self).tbl().same_except(&old(self).tbl(), -1),
            final(self).tbl().count() == old(self).tbl().count(),
            final(self).tbl().borrows() == old(self).tbl().borrows(),
            match (
                handle_check(old(self).tbl(), parent.raw_view()),
                handle_check(old(self).tbl(), child.raw_view()),
            ) {
                (Err(e), _) => r == Err::<(), HandleError>(e) && final(self).tbl() == old(self).tbl(),
                (Ok(_), Err(e)) => r == Err::<(), HandleError>(e) && final(self).tbl() == old(self).tbl(),
                (Ok(_), Ok(_)) => if is_ancestor_of(
                    old(self).tbl().parents(),
                    child.raw_view().index,
                    parent.raw_view().index,
                ) || kids_reach(old(self).tbl().kids(), child.raw_view().index, parent.raw_view().index) {
                    r == Err::<(), HandleError>(
                        HandleError::CycleDetected {
                            parent: parent.raw_view().index,
                            child: child.raw_view().index,
                        },
                    ) && final(self).tbl() == old(self).tbl()
                } else {
                    &&& r is Ok
                    &&& final(self).tbl().parents() == old(self).tbl().parents().insert(
                        child.raw_view().index,
                        parent.raw_view().index,
                    )
                    &&& final(self).tbl().kids() == old(self).tbl().kids().insert(
                        parent.raw_view().index,
                        kids_of(old(self).tbl().kids(), parent.raw_view().index).push(
                            child.raw_view().index,
                        ),
                    )
                },
            },
    {
        self.table.add_child(parent.raw(), child.raw())
    }

    /// Gets the resource value via a borrowed handle.
    pub fn get_borrowed(&self, handle: BorrowHandle<T>) -> (r: Result<&T, HandleError>)
        ensures
            match handle_check(self.tbl(), handle.raw_view()) {
                Err(e) => r matches Err(e2) && e2 == e,
                Ok(_) => r matches Ok(v) && *v == self.tbl().value(handle.raw_view().index as int),
            },
    {
        self.table.get(handle.raw())
    }
}

proof fn lemma_names_listed(v: Seq<(String, ResourceMethod)>, r: Seq<&str>)
    requires
        keys_distinct(named_entries(v)),
        r.len() == v.len(),
        forall|i: int| 0 <= i < v.len() ==> (#[trigger] r[i])@ == v[i].0@,
    ensures
        forall|k: Seq<char>| named_map(v).contains_key(k) <==> exists|i: int|
            0 <= i < r.len() && (#[trigger] r[i])@ == k,
        r.len() == named_map(v).len(),
{
    let e = named_entries(v);
    crate::assoc::lemma_assoc_len(e);
    assert forall|k: Seq<char>| named_map(v).contains_key(k) <==> exists|i: int|
        0 <= i < r.len() && (#[trigger] r[i])@ == k by {
        crate::assoc::lemma_assoc_dom(e, k);
        if named_map(v).contains_key(k) {
            let i = choose|i: int| 0 <= i < e.len() && e[i].0 == k;
            assert(r[i]@ == k);
        }
        if exists|i: int| 0 <= i < r.len() && (#[trigger] r[i])@ == k {
            let i = choose|i: int| 0 <= i < r.len() && (#[trigger] r[i])@ == k;
            assert(e[i].0 == k);
        }
    }
}

/// What `free` does: an invalid or stale handle, or one with active
/// borrows, changes nothing and gives the error; otherwise the value comes
/// back and its slot becomes free with a higher generation.
pub open spec fn free_outcome<T>(
    old_t: HandleTable<T>,
    new_t: HandleTable<T>,
    h: RawHandle,
    r: Result<T, HandleError>,
) -> bool {
    match handle_check(old_t, h) {
        Err(e) => r == Err::<T, HandleError>(e) && new_t == old_t,
        Ok(_) => if borrow_of(old_t, h.index) > 0 {
            r == Err::<T, HandleError>(
                HandleError::ActiveBorrows { index: h.index, count: borrow_of(old_t, h.index) },
            ) && new_t == old_t
        } else {
            &&& r == Ok::<T, HandleError>(old_t.value(h.index as int))
            &&& !new_t.occupied(h.index as int)
            &&& new_t.gen(h.index as int) == h.generation + 1
            &&& new_t.next_free() == Some(h.index)
            &&& new_t.same_except(&old_t, h.index as int)
            &&& new_t.count() + 1 == old_t.count()
            &&& new_t.borrows() == old_t.borrows().remove(h.index)
            &&& new_t.parents() == old_t.parents().remove(h.index)
            &&& new_t.kids() == kids_after_free(old_t.kids(), h.index)
        },
    }
}

// ═════════════════════════════════════════════════════════════════════
// Batch drop
// ═════════════════════════════════════════════════════════════════════

/// The raw handles of owned handles.
pub open spec fn raws<T>(hs: Seq<OwnHandle<T>>) -> Seq<RawHandle> {
    hs.map_values(|h: OwnHandle<T>| h.raw_view())
}

/// `err` if it holds an error already, else `e`.
pub open spec fn keep_first(err: Option<HandleError>, e: HandleError) -> Option<HandleError> {
    if err is None {
        Some(e)
    } else {
        err
    }
}

/// Freeing `hs` from the last to the first: each freed value joins
/// `freed`, and the first error is kept.
pub open spec fn batch_free_model<T>(
    m: TableModel<T>,
    hs: Seq<RawHandle>,
    freed: Seq<T>,
    err: Option<HandleError>,
) -> (TableModel<T>, Seq<T>, Option<HandleError>)
    decreases hs.len(),
{
    if hs.len() == 0 {
        (m, freed, err)
    } else {
        let (m2, r) = model_free(m, hs.last());
        match r {
            Ok(v) => batch_free_model(m2, hs.drop_last(), freed.push(v), err),
            Err(e) => batch_free_model(m2, hs.drop_last(), freed, keep_first(err, e)),
        }
    }
}

/// No free in the batch that goes ahead bumps a generation at its maximum.
pub open spec fn batch_free_ok<T>(m: TableModel<T>, hs: Seq<RawHandle>) -> bool
    decreases hs.len(),
{
    hs.len() == 0 || ((model_check(m, hs.last()) is Ok && model_borrow(m, hs.last().index) == 0 ==> hs.last().generation
        < u32::MAX) && batch_free_ok(
        model_free(m, hs.last()).0,
        hs.drop_last(),
    ))
}

/// Freeing `hs` recursively from the last to the first: each freed group
/// joins `freed`, and the first error is kept.
pub open spec fn batch_recursive_model<T>(
    m: TableModel<T>,
    hs: Seq<RawHandle>,
    freed: Seq<T>,
    err: Option<HandleError>,
) -> (TableModel<T>, Seq<T>, Option<HandleError>)
    decreases hs.len(),
{
    if hs.len() == 0 {
        (m, freed, err)
    } else {
        let (m2, r) = free_recursive_model(m, hs.last());
        match r {
            Ok(vals) => batch_recursive_model(m2, hs.drop_last(), freed + vals, err),
            Err(e) => batch_recursive_model(m2, hs.drop_last(), freed, keep_first(err, e)),
        }
    }
}

/// Every recursive free in the batch has what it needs.
pub open spec fn batch_recursive_ok<T>(m: TableModel<T>, hs: Seq<RawHandle>) -> bool
    decreases hs.len(),
{
    hs.len() == 0 || (recursive_drop_ok(m, hs.last()) && batch_recursive_ok(
        free_recursive_model(m, hs.last()).0,
        hs.drop_last(),
    ))
}

/// Every handle is live and unborrowed, and no two share a slot.
pub open spec fn all_live<T>(m: TableModel<T>, hs: Seq<RawHandle>) -> bool {
    &&& forall|k: int| 0 <= k < hs.len() ==> model_check(m, #[trigger] hs[k]) is Ok
    &&& forall|k: int| 0 <= k < hs.len() ==> model_borrow(m, (#[trigger] hs[k]).index) == 0
    &&& forall|a: int, b: int| 0 <= a < b < hs.len() ==> (#[trigger] hs[a]).index != (#[trigger] hs[b]).index
}

proof fn lemma_batch_live<T>(m: TableModel<T>, hs: Seq<RawHandle>, acc: Seq<T>)
    requires
        model_wf(m),
        all_live(m, hs),
    ensures
        ({
            let (m2, vals, err) = batch_free_model(m, hs, acc, None);
            &&& err is None
            &&& vals.len() == acc.len() + hs.len()
            &&& vals.take(acc.len() as int) == acc
            &&& forall|k: int|
                0 <= k < hs.len() ==> #[trigger] vals[acc.len() + k] == m.slots[hs[hs.len() - 1 - k].index as int]->Occupied_value
            &&& forall|k: int| 0 <= k < hs.len() ==> !model_occupied(m2, (#[trigger] hs[k]).index)
            &&& forall|i: u32| !model_occupied(m, i) ==> !model_occupied(m2, i)
            &&& m2.len + hs.len() == m.len
        }),
    decreases hs.len(),
{
    if hs.len() > 0 {
        let h = hs.last();
        let n = hs.len() - 1;
        assert(model_check(m, hs[n]) is Ok && model_borrow(m, hs[n].index) == 0);
        lemma_model_free(m, h);
        let (m1, r) = model_free(m, h);
        let v = m.slots[h.index as int]->Occupied_value;
        let d = hs.drop_last();
        assert(all_live(m1, d)) by {
            assert forall|k: int| 0 <= k < d.len() implies model_check(m1, #[trigger] d[k]) is Ok by {
                assert(d[k] == hs[k]);
                assert(model_check(m, hs[k]) is Ok);
                assert(hs[k].index != hs[n].index);
            }
            assert forall|k: int| 0 <= k < d.len() implies model_borrow(m1, (#[trigger] d[k]).index) == 0 by {
                assert(d[k] == hs[k]);
                assert(model_borrow(m, hs[k].index) == 0);
                assert(hs[k].index != hs[n].index);
            }
            assert forall|a: int, b: int| 0 <= a < b < d.len() implies (#[trigger] d[a]).index != (#[trigger] d[b]).index by {
                assert(d[a] == hs[a] && d[b] == hs[b]);
            }
        }
        lemma_batch_live(m1, d, acc.push(v));
        let (m2, vals, err) = batch_free_model(m1, d, acc.push(v), None);
        assert(vals.take(acc.len() as int) =~= acc) by {
            assert(vals.take((acc.len() + 1) as int) == acc.push(v));
            assert forall|q: int| 0 <= q < acc.len() implies vals.take(acc.len() as int)[q] == acc[q] by {
                assert(vals.take((acc.len() + 1) as int)[q] == acc.push(v)[q]);
            }
        }
        assert forall|k: int|
            0 <= k < hs.len() implies #[trigger] vals[acc.len() + k] == m.slots[hs[hs.len() - 1 - k].index as int]->Occupied_value by {
            if k == 0 {
                assert(vals.take((acc.len() + 1) as int)[acc.len() as int] == acc.push(v)[acc.len() as int]);
            } else {
                assert(vals[(acc.len() + 1) + (k - 1)] == m1.slots[d[d.len() - 1 - (k - 1)].index as int]->Occupied_value);
                assert(d[d.len() - 1 - (k - 1)] == hs[hs.len() - 1 - k]);
                assert(hs[hs.len() - 1 - k].index != hs[n].index);
            }
        }
        assert forall|k: int| 0 <= k < hs.len() implies !model_occupied(m2, (#[trigger] hs[k]).index) by {
            if k < n {
                assert(d[k] == hs[k]);
            }
        }
    }
}

/// Batch-dropping live, unborrowed handles of distinct slots frees every
/// one of them without error, and returns their values last handle first.
pub proof fn law_batch_drop_live<T>(m: TableModel<T>, hs: Seq<RawHandle>)
    requires
        model_wf(m),
        all_live(m, hs),
    ensures
        ({
            let (m2, vals, err) = batch_free_model(m, hs, Seq::empty(), None);
            &&& err is None
            &&& vals.len() == hs.len()
            &&& forall|k: int|
                0 <= k < hs.len() ==> #[trigger] vals[k] == m.slots[hs[hs.len() - 1 - k].index as int]->Occupied_value
            &&& forall|k: int| 0 <= k < hs.len() ==> !model_occupied(m2, (#[trigger] hs[k]).index)
            &&& m2.len + hs.len() == m.len
        }),
{
    lemma_batch_live(m, hs, Seq::empty());
    let vals = batch_free_model(m, hs, Seq::empty(), None).1;
    assert forall|k: int|
        0 <= k < hs.len() implies #[trigger] vals[k] == m.slots[hs[hs.len() - 1 - k].index as int]->Occupied_value by {
        assert(vals[0 + k] == vals[k]);
    }
}

/// Batch-drops owned handles in reverse order (last constructed, first
/// dropped). Returns the freed values and the first error met, if any.
pub fn batch_drop<T>(def: &mut ResourceDef<T>, handles: Vec<OwnHandle<T>>) -> (r: (
    Vec<T>,
    Option<HandleError>,
))
    requires
        old(def).wf(),
        batch_free_ok(old(def).tbl().model(), raws(handles@)),
    ensures
        final(def).wf(),
        final(def).name_view() == old(def).name_view(),
        (final(def).tbl().model(), r.0@, r.1) == batch_free_model(
            old(def).tbl().model(),
            raws(handles@),
            Seq::empty(),
            None,
        ),
{
    let ghost hs = raws(handles@);
    let ghost target = batch_free_model(def.tbl().model(), hs, Seq::empty(), None);
    let mut freed: Vec<T> = Vec::new();
    let mut first_error: Option<HandleError> = None;
    let n = handles.len();
    let mut i: usize = n;
    proof {
        assert(hs.take(n as int) =~= hs);
    }
    while i > 0
        invariant
            i <= n == handles@.len(),
            hs == raws(handles@),
            def.wf(),
            def.name_view() == old(def).name_view(),
            batch_free_ok(def.tbl().model(), hs.take(i as int)),
            batch_free_model(def.tbl().model(), hs.take(i as int), freed@, first_error) == target,
        decreases i,
    {
        i = i - 1;
        let h = handles[i];
        proof {
            assert(hs.take(i + 1).drop_last() =~= hs.take(i as int));
            assert(hs.take(i + 1).last() == h.raw_view());
        }
        let res = def.drop_resource(h);
        match res {
            Ok(val) => {
                freed.push(val);
            },
            Err(e) => {
                if first_error.is_none() {
                    first_error = Some(e);
                }
            },
        }
    }
    (freed, first_error)
}

/// Batch-drops owned handles in reverse order, each with everything nested
/// under it. Returns the freed values and the first error met, if any.
pub fn batch_drop_recursive<T>(def: &mut ResourceDef<T>, handles: Vec<OwnHandle<T>>) -> (r: (
    Vec<T>,
    Option<HandleError>,
))
    requires
        old(def).wf(),
        batch_recursive_ok(old(def).tbl().model(), raws(handles@)),
    ensures
        final(def).wf(),
        final(def).name_view() == old(def).name_view(),
        (final(def).tbl().model(), r.0@, r.1) == batch_recursive_model(
            old(def).tbl().model(),
            raws(handles@),
            Seq::empty(),
            None,
        ),
{
    let ghost hs = raws(handles@);
    let ghost target = batch_recursive_model(def.tbl().model(), hs, Seq::empty(), None);
    let mut freed: Vec<T> = Vec::new();
    let mut first_error: Option<HandleError> = None;
    let n = handles.len();
    let mut i: usize = n;
    proof {
        assert(hs.take(n as int) =~= hs);
    }
    while i > 0
        invariant
            i <= n == handles@.len(),
            hs == raws(handles@),
            def.wf(),
            def.name_view() == old(def).name_view(),
            batch_recursive_ok(def.tbl().model(), hs.take(i as int)),
            batch_recursive_model(def.tbl().model(), hs.take(i as int), freed@, first_error) == target,
        decreases i,
    {
        i = i - 1;
        let h = handles[i];
        proof {
            assert(hs.take(i + 1).drop_last() =~= hs.take(i as int));
            assert(hs.take(i + 1).last() == h.raw_view());
        }
        let res = def.drop_recursive(h);
        match res {
            Ok(vals) => {
                let mut vals = vals;
                freed.append(&mut vals);
            },
            Err(e) => {
                if first_error.is_none() {
                    first_error = Some(e);
                }
            },
        }
    }
    (freed, first_error)
}

} // verus!
