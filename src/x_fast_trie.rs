use dashmap::DashMap;
use std::sync::Arc;
use vstd::prelude::*;

use crate::binary_search_tree::{with_store, BinarySearchTreeGroup};
use crate::infix_store::InfixStore;
use crate::utils::{ceiling_of, floor_of, strictly_sorted};
use crate::Key;

verus! {

/// `dashmap::DashMap`, the hash map that holds the prefix nodes of each level.
#[verifier::external_type_specification]
#[verifier::external_body]
#[verifier::reject_recursive_types(K)]
#[verifier::reject_recursive_types(V)]
#[verifier::reject_recursive_types(S)]
pub struct ExDashMap<K, V, S>(DashMap<K, V, S>);

/// A level's table: prefix nodes keyed by prefix.
pub type PrefixTable = DashMap<u64, XFastValue>;

/// The prefix nodes that a level's table holds, by prefix.
pub uninterp spec fn table_contents(m: PrefixTable) -> Map<u64, XFastValue>;

/// Relies on `DashMap::new`: a new map holds nothing.
#[verifier::external_body]
fn table_new() -> (r: PrefixTable)
    ensures
        table_contents(r).dom() == Set::<u64>::empty(),
{
    DashMap::new()
}

/// Relies on `DashMap::insert`: afterwards `key` maps to `value` and every other key keeps its
/// value.
#[verifier::external_body]
fn table_insert(m: &mut PrefixTable, key: u64, value: XFastValue)
    ensures
        table_contents(*final(m)) == table_contents(*old(m)).insert(key, value),
{
    m.insert(key, value);
}

/// Relies on `DashMap::get`: the value that `key` maps to, if any.
#[verifier::external_body]
fn table_get(m: &PrefixTable, key: u64) -> (r: Option<XFastValue>)
    ensures
        r is Some <==> table_contents(*m).dom().contains(key),
        r matches Some(v) ==> v == table_contents(*m)[key],
{
    m.get(&key).map(|entry| *entry)
}

/// Relies on `DashMap::contains_key`: whether `key` maps to a value.
#[verifier::external_body]
fn table_contains(m: &PrefixTable, key: u64) -> (r: bool)
    ensures
        r == table_contents(*m).dom().contains(key),
{
    m.contains_key(&key)
}

/// A prefix node: the smallest and the largest representative under its prefix, as indices
/// into the trie's representatives.
#[derive(Clone, Copy)]
pub struct XFastValue {
    pub min_rep: usize,
    pub max_rep: usize,
}

/// One level of the trie: prefix nodes keyed by prefix.
pub struct XFastLevel {
    pub table: PrefixTable,
}

/// A leaf of the trie: a key, its neighbours in key order (as indices), and its bucket.
pub struct RepNode {
    pub key: Key,
    pub left: Option<usize>,
    pub right: Option<usize>,
    pub bst_group: Option<BinarySearchTreeGroup>,
}

/// The top `l` bits of a `w`-bit key.
pub open spec fn prefix_at(k: u64, w: int, l: int) -> u64 {
    if w - l >= 64 {
        0
    } else {
        k >> ((w - l) as u64)
    }
}

/// `r` is the next larger element of `s` after `k`, or absent when there is none.
pub open spec fn next_of(s: Set<u64>, k: u64, r: Option<u64>) -> bool {
    match r {
        Some(p) => s.contains(p) && p > k && forall|x: u64| s.contains(x) && x > k ==> x >= p,
        None => forall|x: u64| s.contains(x) ==> x <= k,
    }
}

/// `r` is the next smaller element of `s` before `k`, or absent when there is none.
pub open spec fn prev_of(s: Set<u64>, k: u64, r: Option<u64>) -> bool {
    match r {
        Some(p) => s.contains(p) && p < k && forall|x: u64| s.contains(x) && x < k ==> x <= p,
        None => forall|x: u64| s.contains(x) ==> x >= k,
    }
}

proof fn lemma_shift_monotone(x: u64, y: u64, s: u64)
    requires
        x <= y,
    ensures
        x >> s <= y >> s,
{
    assert(x <= y ==> x >> s <= y >> s) by (bit_vector);
}

/// Two values that agree above bit 0 and both differ from a third that also agrees with them
/// above bit 0 are equal.
proof fn lemma_last_bit(u: u64, v: u64, t: u64)
    requires
        u >> 1 == t >> 1,
        v >> 1 == t >> 1,
        u != t,
        v != t,
    ensures
        u == v,
{
    assert((u >> 1 == t >> 1 && v >> 1 == t >> 1 && u != t && v != t) ==> u == v) by (bit_vector);
}

/// The prefix one level up is the prefix of this level shifted by one.
proof fn lemma_prefix_step(k: u64, w: int, l: int)
    requires
        0 <= l < w <= 64,
    ensures
        prefix_at(k, w, l) == prefix_at(k, w, l + 1) >> 1,
{
    let s = (w - l - 1) as u64;
    if w - l >= 64 {
        assert((k >> 63u64) >> 1u64 == 0) by (bit_vector);
    } else {
        assert(s < 63 ==> (k >> s) >> 1u64 == k >> ((s + 1) as u64)) by (bit_vector);
    }
}

proof fn lemma_prefix_monotone(x: u64, y: u64, w: int, l: int)
    requires
        x <= y,
        0 <= l <= w <= 64,
    ensures
        prefix_at(x, w, l) <= prefix_at(y, w, l),
{
    if w - l < 64 {
        lemma_shift_monotone(x, y, (w - l) as u64);
    }
}

/// Whether index `i` names a representative whose key has prefix `p` at level `l`.
pub open spec fn under_in(reps: Seq<RepNode>, w: int, i: int, l: int, p: u64) -> bool {
    0 <= i < reps.len() && prefix_at(reps[i].key, w, l) == p
}

/// A prefix node holds the smallest and the largest representative under its prefix.
pub open spec fn node_ok_in(reps: Seq<RepNode>, w: int, v: XFastValue, l: int, p: u64) -> bool {
    &&& under_in(reps, w, v.min_rep as int, l, p)
    &&& under_in(reps, w, v.max_rep as int, l, p)
    &&& forall|i: int|
        #[trigger] under_in(reps, w, i, l, p) ==> reps[v.min_rep as int].key <= reps[i].key
            <= reps[v.max_rep as int].key
}

/// A level holds a node for exactly the prefixes of the keys, and each node is right.
pub open spec fn level_ok_in(reps: Seq<RepNode>, w: int, l: int, t: Map<u64, XFastValue>) -> bool {
    &&& forall|p: u64| #[trigger] t.dom().contains(p) <==> exists|i: int| under_in(reps, w, i, l, p)
    &&& forall|p: u64| #[trigger] t.dom().contains(p) ==> node_ok_in(reps, w, t[p], l, p)
}

/// Representative `i` links to its neighbours in key order.
pub open spec fn links_ok_in(reps: Seq<RepNode>, i: int) -> bool {
    let k = reps[i].key;
    &&& match reps[i].left {
        Some(j) => j < reps.len() && prev_of(keys_of(reps), k, Some(reps[j as int].key)),
        None => prev_of(keys_of(reps), k, None),
    }
    &&& match reps[i].right {
        Some(j) => j < reps.len() && next_of(keys_of(reps), k, Some(reps[j as int].key)),
        None => next_of(keys_of(reps), k, None),
    }
}

/// The node of the prefix of `key` at level `l` once `key` is added as representative `n`.
pub open spec fn updated_node(
    reps: Seq<RepNode>,
    w: int,
    l: int,
    t: Map<u64, XFastValue>,
    key: u64,
    n: usize,
) -> XFastValue {
    let p = prefix_at(key, w, l);
    if t.dom().contains(p) {
        let o = t[p];
        XFastValue {
            min_rep: if key < reps[o.min_rep as int].key {
                n
            } else {
                o.min_rep
            },
            max_rep: if key > reps[o.max_rep as int].key {
                n
            } else {
                o.max_rep
            },
        }
    } else {
        XFastValue { min_rep: n, max_rep: n }
    }
}

/// Representatives that extend `old_reps` by one of key `key`, keeping the other keys.
pub open spec fn extends_by(old_reps: Seq<RepNode>, new_reps: Seq<RepNode>, key: u64) -> bool {
    &&& new_reps.len() == old_reps.len() + 1
    &&& forall|i: int| 0 <= i < old_reps.len() ==> #[trigger] new_reps[i].key == old_reps[i].key
    &&& new_reps[old_reps.len() as int].key == key
    &&& !keys_of(old_reps).contains(key)
}

proof fn lemma_keys_extend(old_reps: Seq<RepNode>, new_reps: Seq<RepNode>, key: u64)
    requires
        extends_by(old_reps, new_reps, key),
    ensures
        keys_of(new_reps) == keys_of(old_reps).insert(key),
{
    assert forall|x: u64| keys_of(new_reps).contains(x) <==> keys_of(old_reps).insert(key).contains(x) by {
        if keys_of(new_reps).contains(x) && x != key {
            let i = choose|i: int| 0 <= i < new_reps.len() && new_reps[i].key == x;
            assert(old_reps[i].key == x);
        }
        if keys_of(old_reps).contains(x) {
            let i = choose|i: int| 0 <= i < old_reps.len() && old_reps[i].key == x;
            assert(new_reps[i].key == x);
        }
        if x == key {
            assert(new_reps[old_reps.len() as int].key == x);
        }
    }
    assert(keys_of(new_reps) =~= keys_of(old_reps).insert(key));
}

/// Adding a representative and updating the node of its prefix keeps a level right.
proof fn lemma_level_step(
    old_reps: Seq<RepNode>,
    new_reps: Seq<RepNode>,
    w: int,
    l: int,
    t: Map<u64, XFastValue>,
    key: u64,
)
    requires
        0 <= l <= w <= 64,
        extends_by(old_reps, new_reps, key),
        old_reps.len() < usize::MAX,
        level_ok_in(old_reps, w, l, t),
    ensures
        level_ok_in(
            new_reps,
            w,
            l,
            t.insert(
                prefix_at(key, w, l),
                updated_node(old_reps, w, l, t, key, old_reps.len() as usize),
            ),
        ),
{
    let n = old_reps.len() as int;
    let p = prefix_at(key, w, l);
    let v = updated_node(old_reps, w, l, t, key, n as usize);
    let t2 = t.insert(p, v);
    assert forall|i: int, q: u64| #[trigger] under_in(new_reps, w, i, l, q) <==> ((0 <= i < n
        && under_in(old_reps, w, i, l, q)) || (i == n && q == p)) by {
        if 0 <= i < n {
            assert(new_reps[i].key == old_reps[i].key);
        }
    }
    assert forall|q: u64| #[trigger] t2.dom().contains(q) <==> exists|i: int|
        under_in(new_reps, w, i, l, q) by {
        if t2.dom().contains(q) {
            if q == p {
                assert(under_in(new_reps, w, n, l, q));
            } else {
                let i = choose|i: int| under_in(old_reps, w, i, l, q);
                assert(under_in(new_reps, w, i, l, q));
            }
        }
        if exists|i: int| under_in(new_reps, w, i, l, q) {
            let i = choose|i: int| under_in(new_reps, w, i, l, q);
            if i < n {
                assert(under_in(old_reps, w, i, l, q));
            }
        }
    }
    assert forall|q: u64| #[trigger] t2.dom().contains(q) implies node_ok_in(new_reps, w, t2[q], l, q) by {
        if q == p {
            if t.dom().contains(p) {
                let o = t[p];
                assert(node_ok_in(old_reps, w, o, l, p));
                assert forall|i: int| #[trigger] under_in(new_reps, w, i, l, p) implies new_reps[v.min_rep as int].key
                    <= new_reps[i].key <= new_reps[v.max_rep as int].key by {
                    if i < n {
                        assert(under_in(old_reps, w, i, l, p));
                    }
                    if old_reps[o.min_rep as int].key == key {
                        assert(keys_of(old_reps).contains(key));
                    }
                }
            } else {
                assert forall|i: int| #[trigger] under_in(new_reps, w, i, l, p) implies i == n by {
                    if i < n {
                        assert(under_in(old_reps, w, i, l, p));
                    }
                }
            }
        } else {
            let o = t[q];
            assert(node_ok_in(old_reps, w, o, l, q));
            assert forall|i: int| #[trigger] under_in(new_reps, w, i, l, q) implies new_reps[o.min_rep as int].key
                <= new_reps[i].key <= new_reps[o.max_rep as int].key by {
                assert(under_in(old_reps, w, i, l, q));
            }
        }
    }
}

/// Splicing a new representative between its neighbours keeps every link right.
proof fn lemma_links_splice(
    old_reps: Seq<RepNode>,
    new_reps: Seq<RepNode>,
    key: u64,
    pred: Option<usize>,
    succ: Option<usize>,
)
    requires
        extends_by(old_reps, new_reps, key),
        old_reps.len() < usize::MAX,
        forall|i: int, j: int|
            0 <= i < j < old_reps.len() ==> old_reps[i].key != old_reps[j].key,
        forall|i: int| 0 <= i < old_reps.len() ==> #[trigger] links_ok_in(old_reps, i),
        match pred {
            Some(p) => p < old_reps.len() && floor_of(keys_of(old_reps), key, Some(old_reps[p as int].key)),
            None => floor_of(keys_of(old_reps), key, None),
        },
        match succ {
            Some(q) => q < old_reps.len() && ceiling_of(keys_of(old_reps), key, Some(old_reps[q as int].key)),
            None => ceiling_of(keys_of(old_reps), key, None),
        },
        new_reps[old_reps.len() as int].left == pred,
        new_reps[old_reps.len() as int].right == succ,
        forall|i: int|
            0 <= i < old_reps.len() ==> #[trigger] new_reps[i].left == if succ == Some(i as usize) {
                Some(old_reps.len() as usize)
            } else {
                old_reps[i].left
            },
        forall|i: int|
            0 <= i < old_reps.len() ==> #[trigger] new_reps[i].right == if pred == Some(i as usize) {
                Some(old_reps.len() as usize)
            } else {
                old_reps[i].right
            },
    ensures
        forall|i: int| 0 <= i < new_reps.len() ==> #[trigger] links_ok_in(new_reps, i),
{
    let n = old_reps.len() as int;
    let kk = keys_of(old_reps);
    lemma_keys_extend(old_reps, new_reps, key);
    assert forall|i: int| 0 <= i < new_reps.len() implies #[trigger] links_ok_in(new_reps, i) by {
        if i < n {
            let ki = old_reps[i].key;
            assert(new_reps[i].key == ki);
            assert(links_ok_in(old_reps, i));
            assert(kk.contains(ki));
            if ki < key {
                if pred != Some(i as usize) {
                    match old_reps[i].right {
                        Some(j) => {
                            assert(new_reps[j as int].key == old_reps[j as int].key);
                            if key < old_reps[j as int].key {
                                let p = pred->0;
                                assert(old_reps[p as int].key == ki);
                            }
                        },
                        None => {
                            let p = pred->0;
                            assert(old_reps[p as int].key == ki);
                        },
                    }
                }
                match old_reps[i].left {
                    Some(j) => {
                        assert(new_reps[j as int].key == old_reps[j as int].key);
                    },
                    None => {},
                }
                if succ == Some(i as usize) {
                    assert(old_reps[(succ->0) as int].key == ki);
                }
            } else {
                if succ != Some(i as usize) {
                    match old_reps[i].left {
                        Some(j) => {
                            assert(new_reps[j as int].key == old_reps[j as int].key);
                            if key > old_reps[j as int].key {
                                let q = succ->0;
                                assert(old_reps[q as int].key == ki);
                            }
                        },
                        None => {
                            let q = succ->0;
                            assert(old_reps[q as int].key == ki);
                        },
                    }
                }
                match old_reps[i].right {
                    Some(j) => {
                        assert(new_reps[j as int].key == old_reps[j as int].key);
                    },
                    None => {},
                }
                if pred == Some(i as usize) {
                    assert(old_reps[(pred->0) as int].key == ki);
                }
            }
        } else {
            match pred {
                Some(p) => {
                    assert(new_reps[p as int].key == old_reps[p as int].key);
                },
                None => {},
            }
            match succ {
                Some(q) => {
                    assert(new_reps[q as int].key == old_reps[q as int].key);
                },
                None => {},
            }
        }
    }
}

/// Representatives with the same keys and links, in the same places.
pub open spec fn same_keys_and_links(old_reps: Seq<RepNode>, new_reps: Seq<RepNode>) -> bool {
    &&& new_reps.len() == old_reps.len()
    &&& forall|i: int|
        0 <= i < old_reps.len() ==> #[trigger] new_reps[i].key == old_reps[i].key
            && new_reps[i].left == old_reps[i].left && new_reps[i].right == old_reps[i].right
}

proof fn lemma_same_keys(old_reps: Seq<RepNode>, new_reps: Seq<RepNode>)
    requires
        same_keys_and_links(old_reps, new_reps),
    ensures
        keys_of(new_reps) == keys_of(old_reps),
{
    assert forall|x: u64| keys_of(new_reps).contains(x) <==> keys_of(old_reps).contains(x) by {
        if keys_of(new_reps).contains(x) {
            let i = choose|i: int| 0 <= i < new_reps.len() && new_reps[i].key == x;
            assert(old_reps[i].key == x);
        }
        if keys_of(old_reps).contains(x) {
            let i = choose|i: int| 0 <= i < old_reps.len() && old_reps[i].key == x;
            assert(new_reps[i].key == x);
        }
    }
    assert(keys_of(new_reps) =~= keys_of(old_reps));
}

/// A level reads only the keys of the representatives.
proof fn lemma_level_same_keys(
    old_reps: Seq<RepNode>,
    new_reps: Seq<RepNode>,
    w: int,
    l: int,
    t: Map<u64, XFastValue>,
)
    requires
        same_keys_and_links(old_reps, new_reps),
        level_ok_in(old_reps, w, l, t),
    ensures
        level_ok_in(new_reps, w, l, t),
{
    assert forall|i: int, q: u64| #[trigger] under_in(new_reps, w, i, l, q) <==> under_in(old_reps, w, i, l, q) by {
        if 0 <= i < old_reps.len() {
            assert(new_reps[i].key == old_reps[i].key);
        }
    }
    assert forall|p: u64| #[trigger] t.dom().contains(p) <==> exists|i: int| under_in(new_reps, w, i, l, p) by {
        if t.dom().contains(p) {
            let i = choose|i: int| under_in(old_reps, w, i, l, p);
            assert(under_in(new_reps, w, i, l, p));
        }
        if exists|i: int| under_in(new_reps, w, i, l, p) {
            let i = choose|i: int| under_in(new_reps, w, i, l, p);
            assert(under_in(old_reps, w, i, l, p));
        }
    }
    assert forall|p: u64| #[trigger] t.dom().contains(p) implies node_ok_in(new_reps, w, t[p], l, p) by {
        let v = t[p];
        assert(node_ok_in(old_reps, w, v, l, p));
        assert(new_reps[v.min_rep as int].key == old_reps[v.min_rep as int].key);
        assert(new_reps[v.max_rep as int].key == old_reps[v.max_rep as int].key);
        assert forall|i: int| #[trigger] under_in(new_reps, w, i, l, p) implies new_reps[v.min_rep as int].key
            <= new_reps[i].key <= new_reps[v.max_rep as int].key by {
            assert(under_in(old_reps, w, i, l, p));
        }
    }
}

/// Links read only the keys and the links of the representatives.
proof fn lemma_links_same_keys(old_reps: Seq<RepNode>, new_reps: Seq<RepNode>, i: int)
    requires
        same_keys_and_links(old_reps, new_reps),
        0 <= i < old_reps.len(),
        links_ok_in(old_reps, i),
    ensures
        links_ok_in(new_reps, i),
{
    lemma_same_keys(old_reps, new_reps);
    assert(new_reps[i].key == old_reps[i].key);
    match old_reps[i].left {
        Some(j) => {
            assert(new_reps[j as int].key == old_reps[j as int].key);
        },
        None => {},
    }
    match old_reps[i].right {
        Some(j) => {
            assert(new_reps[j as int].key == old_reps[j as int].key);
        },
        None => {},
    }
}

/// The keys of a sequence of representatives.
pub open spec fn keys_of(reps: Seq<RepNode>) -> Set<u64> {
    Set::new(|k: u64| exists|i: int| 0 <= i < reps.len() && reps[i].key == k)
}

impl XFastTrie {
    /// The keys of the trie.
    pub closed spec fn key_set(&self) -> Set<u64> {
        keys_of(self.reps@)
    }

    /// The representatives, in the order they were created.
    pub closed spec fn rep_seq(&self) -> Seq<RepNode> {
        self.reps@
    }

    /// Number of levels below the root: the width of the keys.
    pub closed spec fn width(&self) -> int {
        self.no_levels as int
    }

    /// The prefix nodes of level `l`.
    pub closed spec fn level(&self, l: int) -> Map<u64, XFastValue> {
        table_contents(self.levels@[l].table)
    }

    /// Whether index `i` names a representative whose key has prefix `p` at level `l`.
    pub closed spec fn under(&self, i: int, l: int, p: u64) -> bool {
        under_in(self.reps@, self.no_levels as int, i, l, p)
    }

    /// A prefix node holds the smallest and the largest representative under its prefix.
    pub closed spec fn node_ok(&self, v: XFastValue, l: int, p: u64) -> bool {
        node_ok_in(self.reps@, self.no_levels as int, v, l, p)
    }

    /// Level `l` holds a node for exactly the prefixes of the keys, and each node is right.
    pub closed spec fn level_ok(&self, l: int) -> bool {
        level_ok_in(self.reps@, self.no_levels as int, l, self.level(l))
    }

    /// Representative `i` links to its neighbours in key order.
    pub closed spec fn links_ok(&self, i: int) -> bool {
        links_ok_in(self.reps@, i)
    }

    pub closed spec fn wf(&self) -> bool {
        &&& 1 <= self.no_levels <= 64
        &&& self.levels@.len() == self.no_levels + 1
        &&& forall|i: int, j: int|
            0 <= i < j < self.reps@.len() ==> self.reps@[i].key != self.reps@[j].key
        &&& forall|i: int|
            0 <= i < self.reps@.len() ==> prefix_at(#[trigger] self.reps@[i].key, self.no_levels as int, 0) == 0
        &&& forall|l: int| 0 <= l <= self.no_levels ==> #[trigger] self.level_ok(l)
        &&& forall|i: int| 0 <= i < self.reps@.len() ==> #[trigger] self.links_ok(i)
        &&& match self.head_rep {
            Some(h) => h < self.reps@.len() && ceiling_of(self.key_set(), 0, Some(self.reps@[h as int].key)),
            None => self.reps@.len() == 0,
        }
        &&& match self.tail_rep {
            Some(t) => t < self.reps@.len() && floor_of(self.key_set(), u64::MAX, Some(self.reps@[t as int].key)),
            None => self.reps@.len() == 0,
        }
    }
}

/// A hashed binary prefix trie over `no_levels`-bit keys; its leaves form a linked list in key
/// order.
pub struct XFastTrie {
    levels: Vec<XFastLevel>,
    reps: Vec<RepNode>,
    head_rep: Option<usize>,
    tail_rep: Option<usize>,
    no_levels: usize,
}

impl XFastTrie {
    /// An empty trie over `no_levels`-bit keys.
    pub fn new(no_levels: usize) -> (r: Self)
        requires
            1 <= no_levels <= 64,
        ensures
            r.wf(),
            r.width() == no_levels,
            r.key_set() == Set::<u64>::empty(),
            r.rep_seq().len() == 0,
    {
        let mut levels: Vec<XFastLevel> = Vec::new();
        let mut l: usize = 0;
        while l <= no_levels
            invariant
                l <= no_levels + 1,
                no_levels <= 64,
                levels@.len() == l,
                forall|j: int| 0 <= j < l ==> table_contents(#[trigger] levels@[j].table).dom()
                    == Set::<u64>::empty(),
            decreases no_levels + 1 - l,
        {
            levels.push(XFastLevel { table: table_new() });
            l = l + 1;
        }
        let r = XFastTrie { levels, reps: Vec::new(), head_rep: None, tail_rep: None, no_levels };
        assert(r.key_set() =~= Set::<u64>::empty());
        r
    }

    /// The top `l` bits of `key`.
    fn prefix(&self, key: Key, l: usize) -> (r: u64)
        requires
            self.wf(),
            l <= self.no_levels,
        ensures
            r == prefix_at(key, self.no_levels as int, l as int),
    {
        if self.no_levels - l >= 64 {
            0
        } else {
            key >> ((self.no_levels - l) as u64)
        }
    }

    /// Every key is under its own prefix at every level.
    proof fn lemma_key_under(&self, x: u64, l: int) -> (i: int)
        requires
            self.key_set().contains(x),
        ensures
            0 <= i < self.reps@.len(),
            self.reps@[i].key == x,
            self.under(i, l, prefix_at(x, self.no_levels as int, l)),
    {
        choose|i: int| 0 <= i < self.reps@.len() && self.reps@[i].key == x
    }

    /// A key between two keys under a prefix is under it too.
    proof fn lemma_sandwich(&self, lo: u64, z: u64, hi: u64, l: int, p: u64)
        requires
            self.wf(),
            0 <= l <= self.no_levels,
            lo <= z <= hi,
            prefix_at(lo, self.no_levels as int, l) == p,
            prefix_at(hi, self.no_levels as int, l) == p,
        ensures
            prefix_at(z, self.no_levels as int, l) == p,
    {
        lemma_prefix_monotone(lo, z, self.no_levels as int, l);
        lemma_prefix_monotone(z, hi, self.no_levels as int, l);
    }

    /// Below the deepest level that holds a prefix of `key`, the keys under that prefix all
    /// lie on one side of `key`.
    proof fn lemma_same_side(&self, key: u64, l: int, i: int, j: int)
        requires
            self.wf(),
            0 <= l < self.no_levels,
            !self.level(l + 1).dom().contains(prefix_at(key, self.no_levels as int, l + 1)),
            self.under(i, l, prefix_at(key, self.no_levels as int, l)),
            self.under(j, l, prefix_at(key, self.no_levels as int, l)),
        ensures
            self.reps@[i].key != key,
            self.reps@[i].key < key <==> self.reps@[j].key < key,
    {
        let ghost w = self.no_levels as int;
        let xi = self.reps@[i].key;
        let xj = self.reps@[j].key;
        assert(self.level_ok(l + 1));
        assert(self.under(i, l + 1, prefix_at(xi, w, l + 1)));
        assert(self.under(j, l + 1, prefix_at(xj, w, l + 1)));
        let u = prefix_at(xi, w, l + 1);
        let v = prefix_at(xj, w, l + 1);
        let t = prefix_at(key, w, l + 1);
        lemma_prefix_step(xi, w, l);
        lemma_prefix_step(xj, w, l);
        lemma_prefix_step(key, w, l);
        lemma_last_bit(u, v, t);
        if xi < key {
            lemma_prefix_monotone(xi, key, w, l + 1);
        } else {
            lemma_prefix_monotone(key, xi, w, l + 1);
        }
        if xj < key {
            lemma_prefix_monotone(xj, key, w, l + 1);
        } else {
            lemma_prefix_monotone(key, xj, w, l + 1);
        }
    }

    /// The deepest level that holds the prefix of `key`.
    fn find_longest_prefix_length(&self, key: Key) -> (r: usize)
        requires
            self.wf(),
        ensures
            r <= self.no_levels,
            !self.level(0).dom().contains(prefix_at(key, self.no_levels as int, 0)) ==> r == 0,
            self.level(0).dom().contains(prefix_at(key, self.no_levels as int, 0)) ==> {
                &&& self.level(r as int).dom().contains(prefix_at(key, self.no_levels as int, r as int))
                &&& r < self.no_levels ==> !self.level(r + 1).dom().contains(
                    prefix_at(key, self.no_levels as int, r + 1),
                )
            },
    {
        let root_prefix = self.prefix(key, 0);
        if !table_contains(&self.levels[0].table, root_prefix) {
            return 0;
        }
        let mut low: usize = 0;
        let mut high: usize = self.no_levels;
        while low < high
            invariant
                self.wf(),
                low <= high <= self.no_levels,
                self.level(low as int).dom().contains(prefix_at(key, self.no_levels as int, low as int)),
                high < self.no_levels ==> !self.level(high + 1).dom().contains(
                    prefix_at(key, self.no_levels as int, high + 1),
                ),
            decreases high - low,
        {
            let mid = low + (high - low + 1) / 2;
            let prefix = self.prefix(key, mid);
            if table_contains(&self.levels[mid].table, prefix) {
                low = mid;
            } else {
                high = mid - 1;
            }
        }
        low
    }

    /// Index of the representative of the largest key at most `key`.
    fn predecessor_index(&self, key: Key) -> (r: Option<usize>)
        requires
            self.wf(),
        ensures
            match r {
                Some(i) => i < self.reps@.len() && floor_of(
                    self.key_set(),
                    key,
                    Some(self.reps@[i as int].key),
                ),
                None => floor_of(self.key_set(), key, None),
            },
    {
        let ghost w = self.no_levels as int;
        let t = match self.tail_rep {
            None => {
                assert(self.key_set() =~= Set::<u64>::empty());
                return None;
            },
            Some(t) => t,
        };
        if self.prefix(key, 0) != 0 {
            proof {
                assert forall|x: u64| self.key_set().contains(x) implies x < key by {
                    let i = self.lemma_key_under(x, 0);
                    if x >= key {
                        lemma_prefix_monotone(key, x, w, 0);
                    }
                }
            }
            return Some(t);
        }
        proof {
            let i = self.lemma_key_under(self.reps@[t as int].key, 0);
            assert(self.level_ok(0));
        }
        let l = self.find_longest_prefix_length(key);
        let p = self.prefix(key, l);
        let v = match table_get(&self.levels[l].table, p) {
            Some(v) => v,
            None => {
                return None;
            },
        };
        proof {
            assert(self.level_ok(l as int));
            assert(self.node_ok(v, l as int, p));
        }
        let max_key = self.reps[v.max_rep].key;
        if max_key <= key {
            proof {
                assert forall|x: u64| self.key_set().contains(x) && x <= key implies x <= max_key by {
                    if x > max_key {
                        let i = self.lemma_key_under(x, l as int);
                        self.lemma_sandwich(max_key, x, key, l as int, p);
                    }
                }
            }
            return Some(v.max_rep);
        }
        let min_key = self.reps[v.min_rep].key;
        if min_key <= key {
            proof {
                if l < self.no_levels {
                    self.lemma_same_side(key, l as int, v.min_rep as int, v.max_rep as int);
                } else {
                    assert(key >> 0u64 == key && min_key >> 0u64 == min_key && max_key >> 0u64
                        == max_key) by (bit_vector);
                }
            }
            return Some(v.min_rep);
        }
        proof {
            assert(self.links_ok(v.min_rep as int));
            match self.reps@[v.min_rep as int].left {
                Some(j) => {
                    let y = self.reps@[j as int].key;
                    if y > key {
                        self.lemma_sandwich(key, y, min_key, l as int, p);
                        let i = self.lemma_key_under(y, l as int);
                    }
                },
                None => {},
            }
        }
        self.reps[v.min_rep].left
    }

    /// Index of the representative of the smallest key at least `key`.
    fn successor_index(&self, key: Key) -> (r: Option<usize>)
        requires
            self.wf(),
        ensures
            match r {
                Some(i) => i < self.reps@.len() && ceiling_of(
                    self.key_set(),
                    key,
                    Some(self.reps@[i as int].key),
                ),
                None => ceiling_of(self.key_set(), key, None),
            },
    {
        let ghost w = self.no_levels as int;
        let t = match self.tail_rep {
            None => {
                assert(self.key_set() =~= Set::<u64>::empty());
                return None;
            },
            Some(t) => t,
        };
        if self.prefix(key, 0) != 0 {
            proof {
                assert forall|x: u64| self.key_set().contains(x) implies x < key by {
                    let i = self.lemma_key_under(x, 0);
                    if x >= key {
                        lemma_prefix_monotone(key, x, w, 0);
                    }
                }
            }
            return None;
        }
        proof {
            let i = self.lemma_key_under(self.reps@[t as int].key, 0);
            assert(self.level_ok(0));
        }
        let l = self.find_longest_prefix_length(key);
        let p = self.prefix(key, l);
        let v = match table_get(&self.levels[l].table, p) {
            Some(v) => v,
            None => {
                return None;
            },
        };
        proof {
            assert(self.level_ok(l as int));
            assert(self.node_ok(v, l as int, p));
        }
        let min_key = self.reps[v.min_rep].key;
        if min_key >= key {
            proof {
                assert forall|x: u64| self.key_set().contains(x) && x >= key implies x >= min_key by {
                    if x < min_key {
                        let i = self.lemma_key_under(x, l as int);
                        self.lemma_sandwich(key, x, min_key, l as int, p);
                    }
                }
            }
            return Some(v.min_rep);
        }
        let max_key = self.reps[v.max_rep].key;
        if max_key >= key {
            proof {
                if l < self.no_levels {
                    self.lemma_same_side(key, l as int, v.min_rep as int, v.max_rep as int);
                } else {
                    assert(key >> 0u64 == key && min_key >> 0u64 == min_key && max_key >> 0u64
                        == max_key) by (bit_vector);
                }
            }
            return Some(v.max_rep);
        }
        proof {
            assert(self.links_ok(v.max_rep as int));
            match self.reps@[v.max_rep as int].right {
                Some(j) => {
                    let y = self.reps@[j as int].key;
                    if y < key {
                        self.lemma_sandwich(max_key, y, key, l as int, p);
                        let i = self.lemma_key_under(y, l as int);
                    }
                },
                None => {},
            }
        }
        self.reps[v.max_rep].right
    }

    /// Index of the representative of `key`, if `key` is in the trie.
    fn lookup_index(&self, key: Key) -> (r: Option<usize>)
        requires
            self.wf(),
        ensures
            r is Some <==> self.key_set().contains(key),
            r matches Some(i) ==> i < self.reps@.len() && self.reps@[i as int].key == key,
    {
        let w = self.no_levels;
        proof {
            assert(self.level_ok(w as int));
            assert(forall|x: u64| x >> 0u64 == x) by (bit_vector);
            if self.key_set().contains(key) {
                let i = self.lemma_key_under(key, w as int);
            }
        }
        match table_get(&self.levels[w].table, key) {
            Some(v) => {
                proof {
                    assert(self.node_ok(v, w as int, key));
                }
                Some(v.min_rep)
            },
            None => None,
        }
    }

    /// Adds `key`; a key already present leaves the trie as it is.
    pub fn insert(&mut self, key: Key)
        requires
            old(self).wf(),
            prefix_at(key, old(self).width(), 0) == 0,
        ensures
            final(self).wf(),
            final(self).width() == old(self).width(),
            final(self).key_set() == old(self).key_set().insert(key),
            final(self).rep_seq().len() == if old(self).key_set().contains(key) {
                old(self).rep_seq().len()
            } else {
                old(self).rep_seq().len() + 1
            },
            forall|i: int|
                0 <= i < old(self).rep_seq().len() ==> (#[trigger] final(self).rep_seq()[i]).key
                    == old(self).rep_seq()[i].key && final(self).rep_seq()[i].bst_group == old(self).rep_seq()[i].bst_group,
            !old(self).key_set().contains(key) ==> final(self).rep_seq()[old(self).rep_seq().len() as int].bst_group is None
                && final(self).rep_seq()[old(self).rep_seq().len() as int].key == key,
    {
        if self.lookup_index(key).is_some() {
            assert(self.key_set() =~= self.key_set().insert(key));
            return;
        }
        let pred = self.predecessor_index(key);
        let succ = self.successor_index(key);
        let idx = self.reps.len();
        let ghost old_reps = self.reps@;
        let ghost w = self.no_levels as int;
        proof {
            assert forall|i: int| 0 <= i < old_reps.len() implies #[trigger] links_ok_in(old_reps, i) by {
                assert(self.links_ok(i));
            }
        }
        self.reps.push(RepNode { key, left: pred, right: succ, bst_group: None });
        match pred {
            Some(p) => {
                self.reps[p].right = Some(idx);
            },
            None => {},
        }
        match succ {
            Some(q) => {
                self.reps[q].left = Some(idx);
            },
            None => {},
        }
        let ghost new_reps = self.reps@;
        proof {
            broadcast use vstd::std_specs::vec::axiom_spec_len;

            assert(self.reps.len() == self.reps@.len());
            assert(old_reps.len() < usize::MAX);
            assert(extends_by(old_reps, new_reps, key));
            lemma_keys_extend(old_reps, new_reps, key);
            lemma_links_splice(old_reps, new_reps, key, pred, succ);
        }
        let mut l: usize = 0;
        while l <= self.no_levels
            invariant
                self.reps@ == new_reps,
                self.no_levels == old(self).no_levels,
                w == self.no_levels,
                1 <= w <= 64,
                idx == old_reps.len(),
                old_reps == old(self).reps@,
                extends_by(old_reps, new_reps, key),
                idx < usize::MAX,
                l <= self.no_levels + 1,
                self.levels@.len() == w + 1,
                self.head_rep == old(self).head_rep,
                self.tail_rep == old(self).tail_rep,
                forall|j: int| 0 <= j < l ==> #[trigger] level_ok_in(new_reps, w, j, self.level(j)),
                forall|j: int| l <= j <= w ==> #[trigger] self.levels@[j] == old(self).levels@[j],
                forall|j: int| 0 <= j <= w ==> #[trigger] old(self).level_ok(j),
            decreases self.no_levels + 1 - l,
        {
            let prefix = if self.no_levels - l >= 64 {
                0
            } else {
                key >> ((self.no_levels - l) as u64)
            };
            let ghost t = self.level(l as int);
            proof {
                assert(self.levels@[l as int] == old(self).levels@[l as int]);
                assert(old(self).level_ok(l as int));
                assert(t == old(self).level(l as int));
            }
            let nv = match table_get(&self.levels[l].table, prefix) {
                None => XFastValue { min_rep: idx, max_rep: idx },
                Some(v) => {
                    proof {
                        assert(node_ok_in(old_reps, w, v, l as int, prefix));
                        assert(new_reps[v.min_rep as int].key == old_reps[v.min_rep as int].key);
                        assert(new_reps[v.max_rep as int].key == old_reps[v.max_rep as int].key);
                    }
                    let min_rep = if key < self.reps[v.min_rep].key {
                        idx
                    } else {
                        v.min_rep
                    };
                    let max_rep = if key > self.reps[v.max_rep].key {
                        idx
                    } else {
                        v.max_rep
                    };
                    XFastValue { min_rep, max_rep }
                },
            };
            proof {
                assert(nv == updated_node(old_reps, w, l as int, t, key, idx));
                lemma_level_step(old_reps, new_reps, w, l as int, t, key);
            }
            let ghost before = self.levels@;
            proof {
                assert forall|j: int| 0 <= j < l implies #[trigger] level_ok_in(
                    new_reps,
                    w,
                    j,
                    table_contents(before[j].table),
                ) by {
                    assert(level_ok_in(new_reps, w, j, self.level(j)));
                }
            }
            table_insert(&mut self.levels[l].table, prefix, nv);
            proof {
                assert(self.levels@.len() == before.len());
                assert(forall|j: int| 0 <= j <= w && j != l ==> self.levels@[j] == before[j]);
                assert(self.level(l as int) == t.insert(prefix, nv));
                assert(prefix == prefix_at(key, w, l as int));
                assert(level_ok_in(new_reps, w, l as int, self.level(l as int)));
                assert forall|j: int| 0 <= j < l + 1 implies #[trigger] level_ok_in(
                    new_reps,
                    w,
                    j,
                    self.level(j),
                ) by {
                    if j < l {
                        assert(self.levels@[j] == before[j]);
                        assert(level_ok_in(new_reps, w, j, table_contents(before[j].table)));
                    }
                }
            }
            l = l + 1;
        }
        proof {
            assert forall|j: int| 0 <= j <= w implies #[trigger] level_ok_in(
                new_reps,
                w,
                j,
                table_contents(self.levels@[j].table),
            ) by {
                assert(level_ok_in(new_reps, w, j, self.level(j)));
            }
        }
        match self.head_rep {
            Some(h) => {
                if key < self.reps[h].key {
                    self.head_rep = Some(idx);
                }
            },
            None => {
                self.head_rep = Some(idx);
            },
        }
        match self.tail_rep {
            Some(t) => {
                if key > self.reps[t].key {
                    self.tail_rep = Some(idx);
                }
            },
            None => {
                self.tail_rep = Some(idx);
            },
        }
        proof {
            assert forall|l: int| 0 <= l <= w implies #[trigger] self.level_ok(l) by {
                assert(level_ok_in(new_reps, w, l, table_contents(self.levels@[l].table)));
            }
            assert forall|i: int| 0 <= i < self.reps@.len() implies #[trigger] self.links_ok(i) by {
                assert(links_ok_in(new_reps, i));
            }
            assert forall|i: int, j: int|
                0 <= i < j < self.reps@.len() implies self.reps@[i].key != self.reps@[j].key by {
                if j == idx {
                    assert(keys_of(old_reps).contains(old_reps[i].key));
                }
            }
        }
    }

    /// The representative of `key`, if `key` is in the trie.
    pub fn lookup(&self, key: Key) -> (r: Option<&RepNode>)
        requires
            self.wf(),
        ensures
            r is Some <==> self.key_set().contains(key),
            r matches Some(n) ==> n.key == key && self.rep_seq().contains(*n),
    {
        match self.lookup_index(key) {
            Some(i) => Some(&self.reps[i]),
            None => None,
        }
    }

    /// The representative of the largest key at most `key`.
    pub fn predecessor(&self, key: Key) -> (r: Option<&RepNode>)
        requires
            self.wf(),
        ensures
            match r {
                Some(n) => floor_of(self.key_set(), key, Some(n.key)) && self.rep_seq().contains(*n),
                None => floor_of(self.key_set(), key, None),
            },
    {
        match self.predecessor_index(key) {
            Some(i) => Some(&self.reps[i]),
            None => None,
        }
    }

    /// The representative of the smallest key at least `key`.
    pub fn successor(&self, key: Key) -> (r: Option<&RepNode>)
        requires
            self.wf(),
        ensures
            match r {
                Some(n) => ceiling_of(self.key_set(), key, Some(n.key)) && self.rep_seq().contains(*n),
                None => ceiling_of(self.key_set(), key, None),
            },
    {
        match self.successor_index(key) {
            Some(i) => Some(&self.reps[i]),
            None => None,
        }
    }

    /// The representative of the smallest key.
    pub fn head_rep(&self) -> (r: Option<&RepNode>)
        requires
            self.wf(),
        ensures
            match r {
                Some(n) => ceiling_of(self.key_set(), 0, Some(n.key)) && self.rep_seq().contains(*n),
                None => self.key_set() == Set::<u64>::empty(),
            },
    {
        match self.head_rep {
            Some(h) => Some(&self.reps[h]),
            None => {
                assert(self.key_set() =~= Set::<u64>::empty());
                None
            },
        }
    }

    /// The representative of the largest key.
    pub fn tail_rep(&self) -> (r: Option<&RepNode>)
        requires
            self.wf(),
        ensures
            match r {
                Some(n) => floor_of(self.key_set(), u64::MAX, Some(n.key)) && self.rep_seq().contains(*n),
                None => self.key_set() == Set::<u64>::empty(),
            },
    {
        match self.tail_rep {
            Some(t) => Some(&self.reps[t]),
            None => {
                assert(self.key_set() =~= Set::<u64>::empty());
                None
            },
        }
    }

    /// The representative at index `i`; links name representatives by index.
    pub fn rep_at(&self, i: usize) -> (r: &RepNode)
        requires
            i < self.rep_seq().len(),
        ensures
            *r == self.rep_seq()[i as int],
    {
        &self.reps[i]
    }

    /// Attaches `group` to the representative of `key`; a key absent from the trie changes
    /// nothing.
    pub fn set_bst_group(&mut self, key: Key, group: BinarySearchTreeGroup)
        requires
            old(self).wf(),
        ensures
            final(self).wf(),
            final(self).width() == old(self).width(),
            final(self).key_set() == old(self).key_set(),
            final(self).rep_seq().len() == old(self).rep_seq().len(),
            forall|i: int|
                0 <= i < old(self).rep_seq().len() ==> (#[trigger] final(self).rep_seq()[i]).key
                    == old(self).rep_seq()[i].key && final(self).rep_seq()[i].left == old(self).rep_seq()[i].left && final(self).rep_seq()[i].right == old(self).rep_seq()[i].right && final(self).rep_seq()[i].bst_group == if old(self).rep_seq()[i].key == key {
                    Some(group)
                } else {
                    old(self).rep_seq()[i].bst_group
                },
    {
        match self.lookup_index(key) {
            Some(i) => {
                let ghost old_reps = self.reps@;
                self.reps[i].bst_group = Some(group);
                proof {
                    assert(same_keys_and_links(old_reps, self.reps@));
                    lemma_same_keys(old_reps, self.reps@);
                    assert forall|l: int| 0 <= l <= self.no_levels implies #[trigger] self.level_ok(l) by {
                        assert(old(self).level_ok(l));
                        assert(self.levels@[l] == old(self).levels@[l]);
                        lemma_level_same_keys(old_reps, self.reps@, self.no_levels as int, l, self.level(l));
                    }
                    assert forall|j: int| 0 <= j < self.reps@.len() implies #[trigger] self.links_ok(j) by {
                        assert(old(self).links_ok(j));
                        lemma_links_same_keys(old_reps, self.reps@, j);
                    }
                    assert forall|j: int| 0 <= j < old_reps.len() && j != i implies old_reps[j].key != key by {
                        if j < i {
                            assert(old_reps[j].key != old_reps[i as int].key);
                        } else {
                            assert(old_reps[i as int].key != old_reps[j].key);
                        }
                    }
                }
            },
            None => {
                proof {
                    assert forall|j: int| 0 <= j < self.reps@.len() implies self.reps@[j].key != key by {
                        assert(self.key_set().contains(self.reps@[j].key));
                    }
                }
            },
        }
    }

    /// The keys, walking the links from the smallest: ascending, each key once.
    pub fn keys_in_order(&self) -> (r: Vec<Key>)
        requires
            self.wf(),
        ensures
            strictly_sorted(r@),
            forall|x: u64| r@.contains(x) <==> self.key_set().contains(x),
    {
        let mut out: Vec<Key> = Vec::new();
        let mut cur = self.head_rep;
        while cur.is_some()
            invariant
                self.wf(),
                strictly_sorted(out@),
                forall|x: u64| out@.contains(x) ==> self.key_set().contains(x),
                match cur {
                    Some(i) => i < self.reps@.len() && (forall|x: u64|
                        self.key_set().contains(x) && x < self.reps@[i as int].key ==> out@.contains(x))
                        && (out@.len() > 0 ==> out@.last() < self.reps@[i as int].key),
                    None => forall|x: u64| self.key_set().contains(x) ==> out@.contains(x),
                },
            decreases match cur {
                Some(i) => u64::MAX - self.reps@[i as int].key + 1,
                None => 0,
            },
        {
            let i = cur.unwrap();
            let k = self.reps[i].key;
            proof {
                assert(self.links_ok(i as int));
                assert(self.key_set().contains(k));
            }
            out.push(k);
            cur = self.reps[i].right;
            proof {
                broadcast use vstd::seq_lib::lemma_seq_contains_after_push;

            }
        }
        out
    }

    /// The keys, walking the links from the largest: descending, each key once.
    pub fn keys_in_reverse(&self) -> (r: Vec<Key>)
        requires
            self.wf(),
        ensures
            forall|i: int, j: int| 0 <= i < j < r@.len() ==> r@[i] > r@[j],
            forall|x: u64| r@.contains(x) <==> self.key_set().contains(x),
    {
        let mut out: Vec<Key> = Vec::new();
        let mut cur = self.tail_rep;
        while cur.is_some()
            invariant
                self.wf(),
                forall|i: int, j: int| 0 <= i < j < out@.len() ==> out@[i] > out@[j],
                forall|x: u64| out@.contains(x) ==> self.key_set().contains(x),
                match cur {
                    Some(i) => i < self.reps@.len() && (forall|x: u64|
                        self.key_set().contains(x) && x > self.reps@[i as int].key ==> out@.contains(x))
                        && (out@.len() > 0 ==> out@.last() > self.reps@[i as int].key),
                    None => forall|x: u64| self.key_set().contains(x) ==> out@.contains(x),
                },
            decreases match cur {
                Some(i) => self.reps@[i as int].key + 1,
                None => 0,
            },
        {
            let i = cur.unwrap();
            let k = self.reps[i].key;
            proof {
                assert(self.links_ok(i as int));
                assert(self.key_set().contains(k));
            }
            out.push(k);
            cur = self.reps[i].left;
            proof {
                broadcast use vstd::seq_lib::lemma_seq_contains_after_push;

            }
        }
        out
    }

    /// Number of keys, counted along the links.
    pub fn len(&self) -> (r: usize)
        requires
            self.wf(),
        ensures
            r == self.key_set().len(),
    {
        let keys = self.keys_in_order();
        proof {
            assert(keys@.no_duplicates()) by {
                assert forall|i: int, j: int| 0 <= i < keys@.len() && 0 <= j < keys@.len() && i != j
                    implies keys@[i] != keys@[j] by {
                    if i < j {
                        assert(keys@[i] < keys@[j]);
                    } else {
                        assert(keys@[j] < keys@[i]);
                    }
                }
            }
            keys@.unique_seq_to_set();
            assert(keys@.to_set() =~= self.key_set());
        }
        keys.len()
    }

    /// The smallest and the largest key under prefix `p` at level `l`.
    pub closed spec fn node_keys(&self, l: int, p: u64) -> Option<(u64, u64)> {
        if self.level(l).dom().contains(p) {
            Some(
                (
                    self.reps@[self.level(l)[p].min_rep as int].key,
                    self.reps@[self.level(l)[p].max_rep as int].key,
                ),
            )
        } else {
            None
        }
    }

    /// The keys of the prefix node of `prefix` at `level`: its smallest and its largest key.
    pub fn min_max_at(&self, level: usize, prefix: u64) -> (r: Option<(Key, Key)>)
        requires
            self.wf(),
            level <= self.width(),
        ensures
            r == self.node_keys(level as int, prefix),
    {
        proof {
            assert(self.level_ok(level as int));
        }
        match table_get(&self.levels[level].table, prefix) {
            Some(v) => {
                proof {
                    assert(self.node_ok(v, level as int, prefix));
                }
                Some((self.reps[v.min_rep].key, self.reps[v.max_rep].key))
            },
            None => None,
        }
    }

    /// Each level has a node for exactly the prefixes of the keys; a node's smallest and
    /// largest keys have its prefix, and every key with that prefix lies between them.
    pub proof fn lemma_prefix_node(&self, l: int, p: u64)
        requires
            self.wf(),
            0 <= l <= self.width(),
        ensures
            self.node_keys(l, p) is Some <==> exists|x: u64|
                self.key_set().contains(x) && prefix_at(x, self.width(), l) == p,
            self.node_keys(l, p) matches Some((a, b)) ==> {
                &&& self.key_set().contains(a) && self.key_set().contains(b)
                &&& prefix_at(a, self.width(), l) == p && prefix_at(b, self.width(), l) == p
                &&& forall|x: u64|
                    self.key_set().contains(x) && prefix_at(x, self.width(), l) == p ==> a <= x
                        <= b
            },
    {
        assert(self.level_ok(l));
        if self.level(l).dom().contains(p) {
            let v = self.level(l)[p];
            assert(self.node_ok(v, l, p));
            let a = self.reps@[v.min_rep as int].key;
            let b = self.reps@[v.max_rep as int].key;
            assert(self.key_set().contains(a));
            assert(self.key_set().contains(b));
            assert forall|x: u64| self.key_set().contains(x) && prefix_at(x, self.width(), l) == p
                implies a <= x <= b by {
                let i = self.lemma_key_under(x, l);
            }
        } else {
            assert forall|x: u64| self.key_set().contains(x) implies prefix_at(x, self.width(), l)
                != p by {
                let i = self.lemma_key_under(x, l);
            }
        }
    }

    /// At the last level each key has its own node, whose smallest and largest key are that key.
    pub proof fn lemma_leaf_node(&self, k: u64)
        requires
            self.wf(),
        ensures
            self.node_keys(self.width(), k) == if self.key_set().contains(k) {
                Some((k, k))
            } else {
                None
            },
    {
        assert(forall|x: u64| x >> 0u64 == x) by (bit_vector);
        self.lemma_prefix_node(self.width(), k);
    }

    /// Each representative holds a key of the trie and links to its neighbours in key order.
    pub proof fn lemma_rep(&self, i: int)
        requires
            self.wf(),
            0 <= i < self.rep_seq().len(),
        ensures
            self.key_set().contains(self.rep_seq()[i].key),
            forall|j: int|
                0 <= j < self.rep_seq().len() && self.rep_seq()[j].key == self.rep_seq()[i].key
                    ==> j == i,
            match self.rep_seq()[i].left {
                Some(j) => j < self.rep_seq().len() && prev_of(
                    self.key_set(),
                    self.rep_seq()[i].key,
                    Some(self.rep_seq()[j as int].key),
                ),
                None => prev_of(self.key_set(), self.rep_seq()[i].key, None),
            },
            match self.rep_seq()[i].right {
                Some(j) => j < self.rep_seq().len() && next_of(
                    self.key_set(),
                    self.rep_seq()[i].key,
                    Some(self.rep_seq()[j as int].key),
                ),
                None => next_of(self.key_set(), self.rep_seq()[i].key, None),
            },
    {
        assert(self.links_ok(i));
        assert forall|j: int|
            0 <= j < self.rep_seq().len() && self.rep_seq()[j].key == self.rep_seq()[i].key
                implies j == i by {
            if j < i {
                assert(self.reps@[j].key != self.reps@[i].key);
            } else if j > i {
                assert(self.reps@[i].key != self.reps@[j].key);
            }
        }
    }

    /// Every key of the trie is held by a representative.
    pub proof fn lemma_key_rep(&self, x: u64) -> (i: int)
        requires
            self.key_set().contains(x),
        ensures
            0 <= i < self.rep_seq().len(),
            self.rep_seq()[i].key == x,
    {
        choose|i: int| 0 <= i < self.reps@.len() && self.reps@[i].key == x
    }

    /// Attaches `store` to `key` in the bucket of the representative of `boundary`.
    pub fn set_bucket_store(&mut self, boundary: Key, key: Key, store: InfixStore)
        requires
            old(self).wf(),
            forall|i: int|
                0 <= i < old(self).rep_seq().len() && (#[trigger] old(self).rep_seq()[i]).key
                    == boundary && old(self).rep_seq()[i].bst_group is Some ==> old(self).rep_seq()[i].bst_group->0.wf(),
        ensures
            final(self).wf(),
            final(self).width() == old(self).width(),
            final(self).key_set() == old(self).key_set(),
            final(self).rep_seq().len() == old(self).rep_seq().len(),
            forall|i: int|
                0 <= i < old(self).rep_seq().len() ==> (#[trigger] final(self).rep_seq()[i]).key
                    == old(self).rep_seq()[i].key && final(self).rep_seq()[i].left == old(self).rep_seq()[i].left && final(self).rep_seq()[i].right == old(self).rep_seq()[i].right && (old(self).rep_seq()[i].key != boundary ==> final(self).rep_seq()[i].bst_group == old(self).rep_seq()[i].bst_group),
            forall|i: int|
                0 <= i < old(self).rep_seq().len() && old(self).rep_seq()[i].key == boundary
                    ==> (old(self).rep_seq()[i].bst_group is Some <==> (#[trigger] final(self).rep_seq()[i]).bst_group is Some),
            forall|i: int|
                0 <= i < old(self).rep_seq().len() && old(self).rep_seq()[i].key == boundary
                    && old(self).rep_seq()[i].bst_group is Some ==> (#[trigger] final(self).rep_seq()[i]).bst_group->0.wf() && final(self).rep_seq()[i].bst_group->0@
                    == with_store(old(self).rep_seq()[i].bst_group->0@, key, store),
    {
        match self.lookup_index(boundary) {
            Some(i) => {
                let ghost old_reps = self.reps@;
                let taken = self.reps[i].bst_group.take();
                match taken {
                    Some(mut g) => {
                        g.set_infix_store(key, store);
                        self.reps[i].bst_group = Some(g);
                    },
                    None => {},
                }
                proof {
                    assert(same_keys_and_links(old_reps, self.reps@));
                    lemma_same_keys(old_reps, self.reps@);
                    assert forall|l: int| 0 <= l <= self.no_levels implies #[trigger] self.level_ok(l) by {
                        assert(old(self).level_ok(l));
                        assert(self.levels@[l] == old(self).levels@[l]);
                        lemma_level_same_keys(old_reps, self.reps@, self.no_levels as int, l, self.level(l));
                    }
                    assert forall|j: int| 0 <= j < self.reps@.len() implies #[trigger] self.links_ok(j) by {
                        assert(old(self).links_ok(j));
                        lemma_links_same_keys(old_reps, self.reps@, j);
                    }
                    assert forall|j: int| 0 <= j < old_reps.len() && j != i implies old_reps[j].key != boundary by {
                        if j < i {
                            assert(old_reps[j].key != old_reps[i as int].key);
                        } else {
                            assert(old_reps[i as int].key != old_reps[j].key);
                        }
                    }
                }
            },
            None => {
                proof {
                    assert forall|j: int| 0 <= j < self.reps@.len() implies self.reps@[j].key != boundary by {
                        assert(self.key_set().contains(self.reps@[j].key));
                    }
                }
            },
        }
    }
}

} // verus!
