use std::sync::Arc;
use vstd::prelude::*;

use crate::binary_search_tree::{
    bare_keys, predecessor_store_of, successor_store_of, with_store, BinarySearchTreeGroup,
};
use crate::infix_store::InfixStore;
use crate::utils::{
    sample_pos, ceiling_key, ceiling_of, floor_key, floor_of, lemma_ceiling_key, lemma_floor_key,
    sorted_unique_keys, strictly_sorted,
};
use crate::x_fast_trie::{prefix_at, RepNode, XFastTrie};
use crate::Key;

verus! {

/// The keys in the bucket of a representative.
pub open spec fn bucket_keys(r: RepNode) -> Set<u64> {
    match r.bst_group {
        Some(g) => g@.dom(),
        None => Set::empty(),
    }
}

/// A bucket holds its boundary and keys from it up to, not including, the next boundary.
pub open spec fn bucket_ok(bounds: Set<u64>, r: RepNode) -> bool {
    match r.bst_group {
        Some(g) => {
            &&& g.wf()
            &&& g@.dom().contains(r.key)
            &&& forall|x: u64|
                #[trigger] g@.dom().contains(x) ==> r.key <= x && forall|b: u64|
                    #[trigger] bounds.contains(b) && b > r.key ==> x < b
        },
        None => false,
    }
}

/// The keys in the buckets of a sequence of representatives.
pub open spec fn keys_in_buckets(reps: Seq<RepNode>) -> Set<u64> {
    Set::new(|x: u64| exists|i: int| 0 <= i < reps.len() && #[trigger] bucket_keys(reps[i]).contains(x))
}

/// Keys per bucket in a bulk build over `no_levels`-bit keys: `max(no_levels, 8)`.
pub open spec fn bucket_size(no_levels: int) -> int {
    if no_levels > 8 {
        no_levels
    } else {
        8
    }
}

/// The keys of chunk `i` of `t` in runs of `bs`: from sample `i` up to sample `i + 1` or the end.
pub open spec fn chunk_keys(t: Seq<u64>, bs: int, i: int) -> Set<u64> {
    t.subrange(
        sample_pos(i, bs),
        if sample_pos(i + 1, bs) < t.len() {
            sample_pos(i + 1, bs)
        } else {
            t.len() as int
        },
    ).to_set()
}

/// A bulk build over the sorted distinct keys `t`: the boundaries are every `bs`-th key from the
/// first, and the bucket of each holds exactly its chunk.
pub open spec fn bulk_layout(r: YFastTrie, t: Seq<u64>, bs: int) -> bool {
    &&& forall|x: u64|
        r.boundaries().contains(x) <==> exists|i: int|
            0 <= i && sample_pos(i, bs) < t.len() && t[sample_pos(i, bs)] == x
    &&& forall|i: int|
        0 <= i && sample_pos(i, bs) < t.len() ==> (#[trigger] r.bucket_view(
            t[sample_pos(i, bs)],
        )).dom() == chunk_keys(t, bs, i)
}

/// A trie over bucket boundaries, each boundary owning a balanced tree of the keys from it up to
/// the next boundary.
pub struct YFastTrie {
    x_fast_trie: XFastTrie,
}

impl YFastTrie {
    /// The keys of the trie.
    pub closed spec fn key_set(&self) -> Set<u64> {
        keys_in_buckets(self.x_fast_trie.rep_seq())
    }

    /// The bucket boundaries.
    pub closed spec fn boundaries(&self) -> Set<u64> {
        self.x_fast_trie.key_set()
    }

    /// The bucket whose boundary is `b`.
    pub closed spec fn bucket(&self, b: u64) -> Option<BinarySearchTreeGroup> {
        if self.boundaries().contains(b) {
            self.x_fast_trie.rep_seq()[choose|i: int|
                0 <= i < self.x_fast_trie.rep_seq().len() && self.x_fast_trie.rep_seq()[i].key
                    == b].bst_group
        } else {
            None
        }
    }

    pub closed spec fn wf(&self) -> bool {
        &&& self.x_fast_trie.wf()
        &&& forall|i: int|
            0 <= i < self.x_fast_trie.rep_seq().len() ==> #[trigger] bucket_ok(
                self.x_fast_trie.key_set(),
                self.x_fast_trie.rep_seq()[i],
            )
    }

    /// The index trie over the boundaries.
    pub fn x_fast_trie(&self) -> (r: &XFastTrie)
        requires
            self.wf(),
        ensures
            r.wf(),
            r.key_set() == self.boundaries(),
    {
        &self.x_fast_trie
    }

    /// The bucket of representative `i` holds a key exactly when that key's largest boundary at
    /// most it is the representative's key.
    proof fn lemma_bucket_of(&self, i: int, x: u64)
        requires
            self.wf(),
            0 <= i < self.x_fast_trie.rep_seq().len(),
            bucket_keys(self.x_fast_trie.rep_seq()[i]).contains(x),
        ensures
            floor_of(self.boundaries(), x, Some(self.x_fast_trie.rep_seq()[i].key)),
            self.key_set().contains(x),
    {
        let r = self.x_fast_trie.rep_seq()[i];
        assert(bucket_ok(self.boundaries(), r));
        let g = r.bst_group->0;
        assert(g@.dom().contains(x));
        self.x_fast_trie.lemma_rep(i);
    }

    /// The keys in the bucket of the largest boundary at most `x` are the keys of the trie in
    /// that bucket's range; `x` is in the trie exactly when it is in that bucket.
    proof fn lemma_floor_bucket(&self, i: int, x: u64)
        requires
            self.wf(),
            0 <= i < self.x_fast_trie.rep_seq().len(),
            floor_of(self.boundaries(), x, Some(self.x_fast_trie.rep_seq()[i].key)),
        ensures
            self.key_set().contains(x) <==> bucket_keys(self.x_fast_trie.rep_seq()[i]).contains(x),
            forall|y: u64|
                self.key_set().contains(y) && y <= x && !bucket_keys(
                    self.x_fast_trie.rep_seq()[i],
                ).contains(y) ==> y < self.x_fast_trie.rep_seq()[i].key,
            forall|y: u64|
                self.key_set().contains(y) && y >= self.x_fast_trie.rep_seq()[i].key && !bucket_keys(
                    self.x_fast_trie.rep_seq()[i],
                ).contains(y) ==> y > x && (exists|b: u64|
                    self.boundaries().contains(b) && b > self.x_fast_trie.rep_seq()[i].key && b <= y),
    {
        let reps = self.x_fast_trie.rep_seq();
        let bi = reps[i].key;
        assert forall|y: u64| self.key_set().contains(y) && !bucket_keys(reps[i]).contains(y)
            implies (y < bi || (y > x && exists|b: u64|
            self.boundaries().contains(b) && b > bi && b <= y)) by {
            let j = choose|j: int| 0 <= j < reps.len() && #[trigger] bucket_keys(reps[j]).contains(y);
            self.lemma_bucket_of(j, y);
            self.x_fast_trie.lemma_rep(j);
            self.x_fast_trie.lemma_rep(i);
            assert(bucket_ok(self.boundaries(), reps[i]));
            assert(bucket_ok(self.boundaries(), reps[j]));
            let bj = reps[j].key;
            assert(self.boundaries().contains(bj));
            if bj == bi {
                assert(j == i);
            } else if bj < bi {
                let gj = reps[j].bst_group->0;
                assert(gj@.dom().contains(y));
                assert(y < bi);
            } else {
                assert(bj > x);
                let gj = reps[j].bst_group->0;
                assert(gj@.dom().contains(y));
                assert(self.boundaries().contains(bj) && bj > bi && bj <= y);
            }
        }
        if bucket_keys(reps[i]).contains(x) {
            assert(keys_in_buckets(reps).contains(x));
        }
    }

    /// A trie that holds the keys of `keys` answers as the sorted distinct keys do: the answers
    /// that `contains`, `predecessor` and `successor` give for `k` are membership, the largest
    /// key at most `k` and the smallest key at least `k` among them.
    pub proof fn lemma_agrees_with_keys(
        t: YFastTrie,
        keys: Seq<u64>,
        k: u64,
        pred: Option<u64>,
        succ: Option<u64>,
    )
        requires
            t.wf(),
            forall|x: u64| t.key_set().contains(x) <==> keys.contains(x),
            floor_of(t.key_set(), k, pred),
            ceiling_of(t.key_set(), k, succ),
        ensures
            t.key_set().contains(k) <==> keys.contains(k),
            pred == floor_key(keys.to_set(), k),
            succ == ceiling_key(keys.to_set(), k),
    {
        assert(t.key_set() =~= keys.to_set());
        lemma_floor_key(keys.to_set(), k, pred);
        lemma_ceiling_key(keys.to_set(), k, succ);
    }

    /// How buckets relate to keys: each boundary has a bucket that holds it; a key is in a bucket
    /// exactly when that bucket's boundary is the largest boundary at most the key; and the store
    /// of a key is the one attached to it in that bucket.
    pub proof fn lemma_buckets(&self, k: u64)
        requires
            self.wf(),
        ensures
            self.boundaries().contains(k) ==> self.bucket(k) is Some && self.bucket_view(k)
                == self.bucket(k)->0@ && self.bucket_view(k).dom().contains(k),
            forall|b: u64|
                self.boundaries().contains(b) && (#[trigger] self.bucket_view(b)).dom().contains(k)
                    ==> floor_key(self.boundaries(), k) == Some(b) && self.key_set().contains(k),
            self.key_set().contains(k) ==> floor_key(self.boundaries(), k) is Some
                && self.bucket_view(floor_key(self.boundaries(), k)->0).dom().contains(k),
            self.stored(k) == match floor_key(self.boundaries(), k) {
                Some(b) => if self.bucket_view(b).dom().contains(k) {
                    self.bucket_view(b)[k]
                } else {
                    None
                },
                None => None,
            },
            self.boundaries().subset_of(self.key_set()),
    {
        let reps = self.x_fast_trie.rep_seq();
        if self.boundaries().contains(k) {
            let i = self.x_fast_trie.lemma_key_rep(k);
            self.lemma_bucket_at(i);
            assert(bucket_ok(self.boundaries(), reps[i]));
        }
        assert forall|b: u64|
            self.boundaries().contains(b) && (#[trigger] self.bucket_view(b)).dom().contains(k)
                implies floor_key(self.boundaries(), k) == Some(b) && self.key_set().contains(k) by {
            let i = self.x_fast_trie.lemma_key_rep(b);
            self.lemma_bucket_at(i);
            assert(bucket_ok(self.boundaries(), reps[i]));
            assert(bucket_keys(reps[i]).contains(k));
            self.lemma_bucket_of(i, k);
            lemma_floor_key(self.boundaries(), k, Some(b));
        }
        if self.key_set().contains(k) {
            let j = choose|j: int| 0 <= j < reps.len() && #[trigger] bucket_keys(reps[j]).contains(k);
            self.lemma_bucket_of(j, k);
            lemma_floor_key(self.boundaries(), k, Some(reps[j].key));
            self.lemma_bucket_at(j);
            assert(bucket_ok(self.boundaries(), reps[j]));
        }
        assert forall|b: u64| self.boundaries().contains(b) implies self.key_set().contains(b) by {
            let i = self.x_fast_trie.lemma_key_rep(b);
            assert(bucket_ok(self.boundaries(), reps[i]));
            assert(bucket_keys(reps[i]).contains(b));
        }
    }

    /// An empty trie over `no_levels`-bit keys.
    pub fn new(no_levels: usize) -> (r: Self)
        requires
            1 <= no_levels <= 64,
        ensures
            r.wf(),
            r.key_set() == Set::<u64>::empty(),
            forall|k: u64| #[trigger] r.stored(k) is None,
    {
        let r = YFastTrie { x_fast_trie: XFastTrie::new(no_levels) };
        assert(r.key_set() =~= Set::<u64>::empty());
        assert(r.boundaries() =~= Set::<u64>::empty());
        r
    }

    /// The store attached to `key`, if `key` is in the trie and has one.
    pub fn get_infix_store(&self, key: Key) -> (r: Option<Arc<InfixStore>>)
        requires
            self.wf(),
        ensures
            r == self.stored(key),
    {
        let reps = Ghost(self.x_fast_trie.rep_seq());
        let found = self.x_fast_trie.predecessor(key);
        proof {
            lemma_floor_key(self.boundaries(), key, match found {
                Some(n) => Some(n.key),
                None => None,
            });
        }
        match found {
            Some(n) => {
                proof {
                    let i = choose|i: int| 0 <= i < reps@.len() && reps@[i] == *n;
                    self.lemma_bucket_at(i);
                    assert(bucket_ok(self.boundaries(), reps@[i]));
                }
                match &n.bst_group {
                    Some(g) => g.get_infix_store(key),
                    None => None,
                }
            },
            None => None,
        }
    }

    /// Whether `key` is in the trie.
    pub fn contains(&self, key: Key) -> (r: bool)
        requires
            self.wf(),
        ensures
            r == self.key_set().contains(key),
    {
        match self.x_fast_trie.lookup(key) {
            Some(n) => {
                proof {
                    let i = choose|i: int|
                        0 <= i < self.x_fast_trie.rep_seq().len() && self.x_fast_trie.rep_seq()[i] == *n;
                    self.x_fast_trie.lemma_rep(i);
                    assert(bucket_ok(self.boundaries(), self.x_fast_trie.rep_seq()[i]));
                    assert(bucket_keys(self.x_fast_trie.rep_seq()[i]).contains(key));
                    assert(keys_in_buckets(self.x_fast_trie.rep_seq()).contains(key));
                }
                return true;
            },
            None => {},
        }
        match self.x_fast_trie.predecessor(key) {
            Some(n) => {
                let ghost i = choose|i: int|
                    0 <= i < self.x_fast_trie.rep_seq().len() && self.x_fast_trie.rep_seq()[i] == *n;
                proof {
                    assert(bucket_ok(self.boundaries(), self.x_fast_trie.rep_seq()[i]));
                    self.lemma_floor_bucket(i, key);
                }
                match &n.bst_group {
                    Some(g) => g.contains(key),
                    None => false,
                }
            },
            None => {
                proof {
                    assert forall|y: u64| self.key_set().contains(y) implies y != key by {
                        let j = choose|j: int|
                            0 <= j < self.x_fast_trie.rep_seq().len() && #[trigger] bucket_keys(
                                self.x_fast_trie.rep_seq()[j],
                            ).contains(y);
                        self.lemma_bucket_of(j, y);
                    }
                }
                false
            },
        }
    }

    /// The largest key at most `key`.
    pub fn predecessor(&self, key: Key) -> (r: Option<Key>)
        requires
            self.wf(),
        ensures
            floor_of(self.key_set(), key, r),
    {
        match self.x_fast_trie.predecessor(key) {
            Some(n) => {
                let ghost i = choose|i: int|
                    0 <= i < self.x_fast_trie.rep_seq().len() && self.x_fast_trie.rep_seq()[i] == *n;
                proof {
                    assert(bucket_ok(self.boundaries(), self.x_fast_trie.rep_seq()[i]));
                    self.lemma_floor_bucket(i, key);
                }
                match &n.bst_group {
                    Some(g) => {
                        let r = g.predecessor(key);
                        proof {
                            let gb = g@.dom();
                            assert(gb.contains(n.key));
                            assert forall|y: u64| #[trigger] gb.contains(y) implies self.key_set().contains(y) by {
                                self.lemma_bucket_of(i, y);
                            }
                        }
                        r
                    },
                    None => None,
                }
            },
            None => {
                proof {
                    assert forall|y: u64| self.key_set().contains(y) implies y > key by {
                        let j = choose|j: int|
                            0 <= j < self.x_fast_trie.rep_seq().len() && #[trigger] bucket_keys(
                                self.x_fast_trie.rep_seq()[j],
                            ).contains(y);
                        self.lemma_bucket_of(j, y);
                    }
                }
                None
            },
        }
    }

    /// The smallest key at least `key`.
    pub fn successor(&self, key: Key) -> (r: Option<Key>)
        requires
            self.wf(),
        ensures
            ceiling_of(self.key_set(), key, r),
    {
        let reps = Ghost(self.x_fast_trie.rep_seq());
        match self.x_fast_trie.predecessor(key) {
            Some(n) => {
                let ghost i = choose|i: int| 0 <= i < reps@.len() && reps@[i] == *n;
                proof {
                    assert(bucket_ok(self.boundaries(), reps@[i]));
                    self.lemma_floor_bucket(i, key);
                    self.x_fast_trie.lemma_rep(i);
                }
                match &n.bst_group {
                    Some(g) => {
                        match g.successor(key) {
                            Some(sk) => {
                                proof {
                                    self.lemma_bucket_of(i, sk);
                                    assert forall|y: u64| self.key_set().contains(y) && y >= key
                                        implies y >= sk by {
                                        if !g@.dom().contains(y) {
                                            let b = choose|b: u64|
                                                self.boundaries().contains(b) && b > n.key && b <= y;
                                            assert(g@.dom().contains(sk));
                                        }
                                    }
                                }
                                return Some(sk);
                            },
                            None => {},
                        }
                    },
                    None => {},
                }
                match n.right {
                    Some(j) => {
                        let next = self.x_fast_trie.rep_at(j);
                        proof {
                            assert(bucket_ok(self.boundaries(), reps@[j as int]));
                            self.lemma_bucket_of(j as int, next.key);
                            assert forall|y: u64| self.key_set().contains(y) && y >= key
                                implies y >= next.key by {
                                if !bucket_keys(reps@[i]).contains(y) {
                                    let b = choose|b: u64|
                                        self.boundaries().contains(b) && b > n.key && b <= y;
                                }
                            }
                        }
                        Some(next.key)
                    },
                    None => {
                        proof {
                            assert forall|y: u64| self.key_set().contains(y) implies y < key by {
                                if y >= key && !bucket_keys(reps@[i]).contains(y) {
                                    let b = choose|b: u64|
                                        self.boundaries().contains(b) && b > n.key && b <= y;
                                }
                            }
                        }
                        None
                    },
                }
            },
            None => {
                match self.x_fast_trie.head_rep() {
                    Some(h) => {
                        proof {
                            let i = choose|i: int| 0 <= i < reps@.len() && reps@[i] == *h;
                            assert(bucket_ok(self.boundaries(), reps@[i]));
                            self.lemma_bucket_of(i, h.key);
                            self.x_fast_trie.lemma_rep(i);
                            assert forall|y: u64| self.key_set().contains(y) && y >= key
                                implies y >= h.key by {
                                let j = choose|j: int|
                                    0 <= j < reps@.len() && #[trigger] bucket_keys(reps@[j]).contains(y);
                                self.lemma_bucket_of(j, y);
                                self.x_fast_trie.lemma_rep(j);
                            }
                        }
                        Some(h.key)
                    },
                    None => {
                        proof {
                            assert forall|y: u64| self.key_set().contains(y) implies y < key by {
                                let j = choose|j: int|
                                    0 <= j < reps@.len() && #[trigger] bucket_keys(reps@[j]).contains(y);
                                self.x_fast_trie.lemma_rep(j);
                            }
                        }
                        None
                    },
                }
            },
        }
    }

    /// The view of the bucket whose boundary is `b`, empty where `b` is no boundary.
    pub closed spec fn bucket_view(&self, b: u64) -> Map<Key, Option<Arc<InfixStore>>> {
        match self.bucket(b) {
            Some(g) => g@,
            None => Map::empty(),
        }
    }

    /// The store attached to key `k`, if `k` is in the trie and has one.
    pub closed spec fn stored(&self, k: u64) -> Option<Arc<InfixStore>> {
        match floor_key(self.boundaries(), k) {
            Some(b) => if self.bucket_view(b).dom().contains(k) {
                self.bucket_view(b)[k]
            } else {
                None
            },
            None => None,
        }
    }

    /// The bucket of representative `i` is the bucket of its key.
    proof fn lemma_bucket_at(&self, i: int)
        requires
            self.wf(),
            0 <= i < self.x_fast_trie.rep_seq().len(),
        ensures
            self.bucket(self.x_fast_trie.rep_seq()[i].key) == self.x_fast_trie.rep_seq()[i].bst_group,
            self.boundaries().contains(self.x_fast_trie.rep_seq()[i].key),
    {
        self.x_fast_trie.lemma_rep(i);
    }

    /// The store that the bucket of the largest boundary at most `key` answers for `key`:
    /// that of `key` itself, or the one carried from below it.
    pub fn predecessor_infix_store(&self, key: Key) -> (r: Option<Arc<InfixStore>>)
        requires
            self.wf(),
        ensures
            r == match floor_key(self.boundaries(), key) {
                Some(b) => match self.bucket(b) {
                    Some(g) => predecessor_store_of(g, key),
                    None => None,
                },
                None => None,
            },
    {
        let reps = Ghost(self.x_fast_trie.rep_seq());
        let found = self.x_fast_trie.predecessor(key);
        proof {
            lemma_floor_key(self.boundaries(), key, match found {
                Some(n) => Some(n.key),
                None => None,
            });
        }
        match found {
            Some(n) => {
                proof {
                    let i = choose|i: int| 0 <= i < reps@.len() && reps@[i] == *n;
                    self.lemma_bucket_at(i);
                    assert(bucket_ok(self.boundaries(), reps@[i]));
                }
                match &n.bst_group {
                    Some(g) => g.predecessor_infix_store(key),
                    None => None,
                }
            },
            None => None,
        }
    }

    /// The store that the bucket of the smallest boundary at least `key` answers for `key`:
    /// that of `key` itself, or the one carried from above it.
    pub fn successor_infix_store(&self, key: Key) -> (r: Option<Arc<InfixStore>>)
        requires
            self.wf(),
        ensures
            r == match ceiling_key(self.boundaries(), key) {
                Some(b) => match self.bucket(b) {
                    Some(g) => successor_store_of(g, key),
                    None => None,
                },
                None => None,
            },
    {
        let reps = Ghost(self.x_fast_trie.rep_seq());
        let found = self.x_fast_trie.successor(key);
        proof {
            lemma_ceiling_key(self.boundaries(), key, match found {
                Some(n) => Some(n.key),
                None => None,
            });
        }
        match found {
            Some(n) => {
                proof {
                    let i = choose|i: int| 0 <= i < reps@.len() && reps@[i] == *n;
                    self.lemma_bucket_at(i);
                    assert(bucket_ok(self.boundaries(), reps@[i]));
                }
                match &n.bst_group {
                    Some(g) => g.successor_infix_store(key),
                    None => None,
                }
            },
            None => None,
        }
    }

    /// Attaches `infix_store` to `key` in the bucket of the largest boundary at most `key`;
    /// where `key` is not in that bucket nothing changes.
    pub fn set_infix_store(&mut self, key: Key, infix_store: InfixStore)
        requires
            old(self).wf(),
        ensures
            final(self).wf(),
            final(self).key_set() == old(self).key_set(),
            final(self).boundaries() == old(self).boundaries(),
            forall|b: u64|
                #[trigger] final(self).bucket_view(b) == if floor_key(old(self).boundaries(), key)
                    == Some(b) {
                    with_store(old(self).bucket_view(b), key, infix_store)
                } else {
                    old(self).bucket_view(b)
                },
            forall|k: u64|
                #[trigger] final(self).stored(k) == if k == key && old(self).key_set().contains(key) {
                    Some(Arc::new(infix_store))
                } else {
                    old(self).stored(k)
                },
    {
        let ghost old_reps = self.x_fast_trie.rep_seq();
        let found = match self.x_fast_trie.predecessor(key) {
            Some(n) => Some(n.key),
            None => None,
        };
        proof {
            lemma_floor_key(self.boundaries(), key, found);
        }
        match found {
            Some(b) => {
                proof {
                    assert forall|i: int|
                        0 <= i < old_reps.len() && (#[trigger] old_reps[i]).key == b
                            && old_reps[i].bst_group is Some implies old_reps[i].bst_group->0.wf() by {
                        assert(bucket_ok(self.boundaries(), old_reps[i]));
                    }
                }
                self.x_fast_trie.set_bucket_store(b, key, infix_store);
                proof {
                    let new_reps = self.x_fast_trie.rep_seq();
                    assert forall|i: int| 0 <= i < new_reps.len() implies #[trigger] bucket_ok(
                        self.x_fast_trie.key_set(),
                        new_reps[i],
                    ) by {
                        assert(bucket_ok(old(self).boundaries(), old_reps[i]));
                        assert(new_reps[i].key == old_reps[i].key);
                        if old_reps[i].key == b {
                            let g = old_reps[i].bst_group->0;
                            let h = new_reps[i].bst_group->0;
                            assert(h@.dom() =~= g@.dom());
                        }
                    }
                    assert forall|x: u64| self.key_set().contains(x) <==> old(self).key_set().contains(x) by {
                        if self.key_set().contains(x) {
                            let j = choose|j: int|
                                0 <= j < new_reps.len() && #[trigger] bucket_keys(new_reps[j]).contains(x);
                            assert(new_reps[j].key == old_reps[j].key);
                            if old_reps[j].key == b {
                                let g = old_reps[j].bst_group->0;
                                let h = new_reps[j].bst_group->0;
                                assert(h@.dom() =~= g@.dom());
                            }
                            assert(bucket_keys(old_reps[j]).contains(x));
                        }
                        if old(self).key_set().contains(x) {
                            let j = choose|j: int|
                                0 <= j < old_reps.len() && #[trigger] bucket_keys(old_reps[j]).contains(x);
                            assert(new_reps[j].key == old_reps[j].key);
                            assert(bucket_ok(old(self).boundaries(), old_reps[j]));
                            if old_reps[j].key == b {
                                let g = old_reps[j].bst_group->0;
                                let h = new_reps[j].bst_group->0;
                                assert(h@.dom() =~= g@.dom());
                            }
                            assert(bucket_keys(new_reps[j]).contains(x));
                        }
                    }
                    assert(self.key_set() =~= old(self).key_set());
                    assert forall|c: u64| #[trigger] self.bucket_view(c) == if floor_key(
                        old(self).boundaries(),
                        key,
                    ) == Some(c) {
                        with_store(old(self).bucket_view(c), key, infix_store)
                    } else {
                        old(self).bucket_view(c)
                    } by {
                        if self.boundaries().contains(c) {
                            let i = self.x_fast_trie.lemma_key_rep(c);
                            assert(old_reps[i].key == c);
                            self.lemma_bucket_at(i);
                            old(self).lemma_bucket_at(i);
                            assert(bucket_ok(old(self).boundaries(), old_reps[i]));
                        }
                    }
                    assert forall|k: u64| #[trigger] self.stored(k) == if k == key && old(self).key_set().contains(key) {
                        Some(Arc::new(infix_store))
                    } else {
                        old(self).stored(k)
                    } by {
                        assert(self.bucket_view(b) == with_store(old(self).bucket_view(b), key, infix_store));
                        if k == key {
                            let i = self.x_fast_trie.lemma_key_rep(b);
                            old(self).lemma_bucket_at(i);
                            assert(bucket_ok(old(self).boundaries(), old_reps[i]));
                            old(self).lemma_floor_bucket(i, key);
                        }
                    }
                }
            },
            None => {
                proof {
                    assert forall|k: u64| #[trigger] self.stored(k) == if k == key && old(self).key_set().contains(key) {
                        Some(Arc::new(infix_store))
                    } else {
                        old(self).stored(k)
                    } by {
                        if k == key && self.key_set().contains(key) {
                            let j = choose|j: int|
                                0 <= j < old_reps.len() && #[trigger] bucket_keys(old_reps[j]).contains(key);
                            self.lemma_bucket_of(j, key);
                        }
                    }
                }
            },
        }
    }

    /// A trie over the distinct keys of `keys`: each run of `max(no_levels, 8)` keys in
    /// ascending order is one bucket, whose first key is its boundary. Keys wider than
    /// `no_levels` bits are indexed at the full 64 bits.
    pub fn new_with_keys(keys: &[Key], no_levels: usize) -> (r: Self)
        requires
            1 <= no_levels <= 64,
        ensures
            r.wf(),
            forall|x: u64| r.key_set().contains(x) <==> keys@.contains(x),
            forall|k: u64| #[trigger] r.stored(k) is None,
            exists|t: Seq<u64>|
                {
                    &&& strictly_sorted(t)
                    &&& forall|x: u64| t.contains(x) <==> keys@.contains(x)
                    &&& bulk_layout(r, t, bucket_size(no_levels as int))
                },
    {
        let sorted_keys = sorted_unique_keys(keys);
        let n = sorted_keys.len();
        let bst_group_size: usize = if no_levels > 8 {
            no_levels
        } else {
            8
        };
        let width = if no_levels < 64 && n > 0 && (sorted_keys[n - 1] >> (no_levels as u64)) != 0 {
            64
        } else {
            no_levels
        };
        proof {
            assert forall|j: int| 0 <= j < n implies prefix_at(#[trigger] sorted_keys@[j], width as int, 0) == 0 by {
                if width < 64 {
                    let a = sorted_keys@[j];
                    let b = sorted_keys@[n - 1];
                    if j < n - 1 {
                        assert(a < b);
                    }
                    let s = width as u64;
                    assert(a <= b && b >> s == 0 ==> a >> s == 0) by (bit_vector);
                }
            }
        }
        let mut x_fast_trie = XFastTrie::new(width);
        let mut chunk_start: usize = 0;
        while chunk_start < n
            invariant
                n == sorted_keys@.len(),
                strictly_sorted(sorted_keys@),
                8 <= bst_group_size <= 64,
                1 <= width <= 64,
                chunk_start <= n,
                forall|j: int| 0 <= j < n ==> prefix_at(#[trigger] sorted_keys@[j], width as int, 0) == 0,
                x_fast_trie.wf(),
                x_fast_trie.width() == width,
                x_fast_trie.rep_seq().len() <= chunk_start,
                forall|i: int|
                    0 <= i < x_fast_trie.rep_seq().len() ==> #[trigger] bucket_ok(
                        x_fast_trie.key_set(),
                        x_fast_trie.rep_seq()[i],
                    ),
                forall|x: u64|
                    keys_in_buckets(x_fast_trie.rep_seq()).contains(x) <==> sorted_keys@.take(
                        chunk_start as int,
                    ).contains(x),
                forall|i: int|
                    0 <= i < x_fast_trie.rep_seq().len() ==> (#[trigger] x_fast_trie.rep_seq()[i].bst_group
                        matches Some(g) && g@ == bare_keys(g@.dom())),
                bst_group_size == bucket_size(no_levels as int),
                chunk_start < n ==> chunk_start == sample_pos(x_fast_trie.rep_seq().len() as int, bst_group_size as int),
                chunk_start == n ==> sample_pos(x_fast_trie.rep_seq().len() as int, bst_group_size as int) >= n,
                forall|i: int|
                    0 <= i < x_fast_trie.rep_seq().len() ==> sample_pos(i, bst_group_size as int) < n
                        && (#[trigger] x_fast_trie.rep_seq()[i]).key == sorted_keys@[sample_pos(i, bst_group_size as int)]
                        && bucket_keys(x_fast_trie.rep_seq()[i]) == chunk_keys(sorted_keys@, bst_group_size as int, i),
            decreases n - chunk_start,
        {
            let chunk_end = if n - chunk_start > bst_group_size {
                chunk_start + bst_group_size
            } else {
                n
            };
            let mut chunk: Vec<Key> = Vec::new();
            let mut k: usize = chunk_start;
            while k < chunk_end
                invariant
                    chunk_start <= k <= chunk_end <= n,
                    n == sorted_keys@.len(),
                    chunk@ == sorted_keys@.subrange(chunk_start as int, k as int),
                decreases chunk_end - k,
            {
                chunk.push(sorted_keys[k]);
                k = k + 1;
                assert(chunk@ =~= sorted_keys@.subrange(chunk_start as int, k as int));
            }
            let boundary_key = sorted_keys[chunk_start];
            let ghost reps0 = x_fast_trie.rep_seq();
            let ghost bounds0 = x_fast_trie.key_set();
            proof {
                assert forall|x: u64| keys_in_buckets(reps0).contains(x) implies x < boundary_key by {
                    assert(sorted_keys@.take(chunk_start as int).contains(x));
                    let t = choose|t: int| 0 <= t < chunk_start && sorted_keys@.take(chunk_start as int)[t] == x;
                    assert(sorted_keys@[t] == x);
                }
                assert forall|b: u64| bounds0.contains(b) implies b < boundary_key by {
                    let i = x_fast_trie.lemma_key_rep(b);
                    assert(bucket_ok(bounds0, reps0[i]));
                    assert(keys_in_buckets(reps0).contains(b)) by {
                        assert(bucket_keys(reps0[i]).contains(b));
                    }
                }
            }
            x_fast_trie.insert(boundary_key);
            let group = BinarySearchTreeGroup::new_with_keys(chunk.as_slice());
            let ghost gview = group@;
            x_fast_trie.set_bst_group(boundary_key, group);
            proof {
                let reps = x_fast_trie.rep_seq();
                let m = reps0.len() as int;
                assert(!bounds0.contains(boundary_key));
                assert(reps.len() == m + 1);
                assert(reps[m].key == boundary_key);
                assert(reps[m].bst_group == Some(group));
                assert(gview == bare_keys(chunk@.to_set()));
                assert(gview.dom() =~= chunk@.to_set());
                assert forall|j: int| 0 <= j < m implies #[trigger] reps[j].bst_group == reps0[j].bst_group by {
                    assert(bucket_ok(bounds0, reps0[j]));
                    assert(bucket_keys(reps0[j]).contains(reps0[j].key));
                    assert(keys_in_buckets(reps0).contains(reps0[j].key));
                }
                assert forall|x: u64| gview.dom().contains(x) <==> sorted_keys@.subrange(
                    chunk_start as int,
                    chunk_end as int,
                ).contains(x) by {
                    assert(chunk@.to_set().contains(x) <==> chunk@.contains(x));
                }
                assert forall|i: int| 0 <= i < reps.len() implies #[trigger] bucket_ok(
                    x_fast_trie.key_set(),
                    reps[i],
                ) by {
                    if i < m {
                        assert(bucket_ok(bounds0, reps0[i]));
                        assert(reps[i].key == reps0[i].key);
                        assert(bucket_keys(reps0[i]).contains(reps0[i].key));
                        assert(keys_in_buckets(reps0).contains(reps0[i].key));
                        assert(reps[i].bst_group == reps0[i].bst_group);
                        let g = reps0[i].bst_group->0;
                        assert forall|x: u64| #[trigger] g@.dom().contains(x) implies x < boundary_key by {
                            assert(bucket_keys(reps0[i]).contains(x));
                            assert(keys_in_buckets(reps0).contains(x));
                        }
                    } else {
                        assert(sorted_keys@.subrange(chunk_start as int, chunk_end as int)[0]
                            == boundary_key);
                        assert forall|x: u64| #[trigger] gview.dom().contains(x) implies boundary_key <= x by {
                            let sub = sorted_keys@.subrange(chunk_start as int, chunk_end as int);
                            let t = choose|t: int| 0 <= t < sub.len() && sub[t] == x;
                            assert(sub[t] == sorted_keys@[chunk_start + t]);
                            if t > 0 {
                                assert(sorted_keys@[chunk_start as int] < sorted_keys@[chunk_start + t]);
                            }
                        }
                        assert forall|b: u64| #[trigger] x_fast_trie.key_set().contains(b) implies b <= boundary_key by {
                            if b != boundary_key {
                                assert(bounds0.contains(b));
                            }
                        }
                    }
                }
                assert forall|x: u64| keys_in_buckets(reps).contains(x) <==> sorted_keys@.take(
                    chunk_end as int,
                ).contains(x) by {
                    let sub = sorted_keys@.subrange(chunk_start as int, chunk_end as int);
                    if keys_in_buckets(reps).contains(x) {
                        let j = choose|j: int| 0 <= j < reps.len() && #[trigger] bucket_keys(reps[j]).contains(x);
                        if j < m {
                            assert(bucket_keys(reps0[j]).contains(x));
                            assert(keys_in_buckets(reps0).contains(x));
                            let t = choose|t: int| 0 <= t < chunk_start && sorted_keys@.take(chunk_start as int)[t] == x;
                            assert(sorted_keys@.take(chunk_end as int)[t] == x);
                        } else {
                            let t = choose|t: int| 0 <= t < sub.len() && sub[t] == x;
                            assert(sorted_keys@.take(chunk_end as int)[chunk_start + t] == x);
                        }
                    }
                    if sorted_keys@.take(chunk_end as int).contains(x) {
                        let t = choose|t: int| 0 <= t < chunk_end && sorted_keys@.take(chunk_end as int)[t] == x;
                        if t < chunk_start {
                            assert(sorted_keys@.take(chunk_start as int)[t] == x);
                            assert(keys_in_buckets(reps0).contains(x));
                            let j = choose|j: int| 0 <= j < reps0.len() && #[trigger] bucket_keys(reps0[j]).contains(x);
                            assert(bucket_keys(reps[j]).contains(x));
                        } else {
                            assert(sub[t - chunk_start] == x);
                            assert(bucket_keys(reps[m]).contains(x));
                        }
                    }
                }
            }
            proof {
                let reps = x_fast_trie.rep_seq();
                let m = reps0.len() as int;
                let bs = bst_group_size as int;
                assert(sample_pos(m + 1, bs) == sample_pos(m, bs) + bs) by (nonlinear_arith);
                assert(chunk_keys(sorted_keys@, bs, m) =~= sorted_keys@.subrange(
                    chunk_start as int,
                    chunk_end as int,
                ).to_set());
                assert(bucket_keys(reps[m]) =~= chunk_keys(sorted_keys@, bs, m)) by {
                    assert forall|x: u64| gview.dom().contains(x) <==> sorted_keys@.subrange(
                        chunk_start as int,
                        chunk_end as int,
                    ).to_set().contains(x) by {
                        assert(chunk@.to_set().contains(x) <==> chunk@.contains(x));
                    }
                }
                assert forall|i: int| 0 <= i < reps.len() implies sample_pos(i, bs) < n
                    && (#[trigger] reps[i]).key == sorted_keys@[sample_pos(i, bs)]
                    && bucket_keys(reps[i]) == chunk_keys(sorted_keys@, bs, i) by {
                    if i < m {
                        assert(reps[i].key == reps0[i].key);
                        assert(reps[i].bst_group == reps0[i].bst_group);
                    }
                }
            }
            chunk_start = chunk_end;
        }
        let r = YFastTrie { x_fast_trie };
        proof {
            let reps = r.x_fast_trie.rep_seq();
            let c = reps.len() as int;
            let bs = bst_group_size as int;
            let t = sorted_keys@;
            assert forall|i: int| 0 <= i && sample_pos(i, bs) < t.len() implies i < c by {
                if i >= c {
                    assert(sample_pos(i, bs) >= sample_pos(c, bs)) by (nonlinear_arith)
                        requires
                            i >= c,
                            bs >= 1,
                    ;
                }
            }
            assert forall|x: u64| r.boundaries().contains(x) <==> exists|i: int|
                0 <= i && sample_pos(i, bs) < t.len() && t[sample_pos(i, bs)] == x by {
                if r.boundaries().contains(x) {
                    let i = r.x_fast_trie.lemma_key_rep(x);
                    assert(reps[i].key == t[sample_pos(i, bs)]);
                }
                if exists|i: int| 0 <= i && sample_pos(i, bs) < t.len() && t[sample_pos(i, bs)] == x {
                    let i = choose|i: int| 0 <= i && sample_pos(i, bs) < t.len() && t[sample_pos(i, bs)] == x;
                    assert(reps[i].key == x);
                    r.lemma_bucket_at(i);
                }
            }
            assert forall|i: int| 0 <= i && sample_pos(i, bs) < t.len() implies (#[trigger] r.bucket_view(
                t[sample_pos(i, bs)],
            )).dom() == chunk_keys(t, bs, i) by {
                assert(reps[i].key == t[sample_pos(i, bs)]);
                r.lemma_bucket_at(i);
            }
            assert(bulk_layout(r, t, bucket_size(no_levels as int)));
        }
        proof {
            assert(sorted_keys@.take(n as int) =~= sorted_keys@);
            assert forall|k: u64| #[trigger] r.stored(k) is None by {
                match floor_key(r.boundaries(), k) {
                    Some(b) => {
                        if r.boundaries().contains(b) {
                            let i = r.x_fast_trie.lemma_key_rep(b);
                            r.lemma_bucket_at(i);
                        }
                    },
                    None => {},
                }
            }
        }
        r
    }
}

} // verus!
