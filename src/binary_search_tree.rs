use std::sync::Arc;
use vstd::prelude::*;

use crate::infix_store::InfixStore;
use crate::utils::{
    ceiling_key, ceiling_of, floor_key, floor_of, lemma_ceiling_key, lemma_ceiling_transfer,
    lemma_floor_key, lemma_floor_transfer,
    sorted_unique_keys, strictly_sorted,
};
use crate::Key;

verus! {

/// A static balanced binary search tree over the keys of one bucket; each key may carry an
/// infix store.
pub struct BinarySearchTreeGroup {
    root: Option<Box<TreeNode>>,
}

struct TreeNode {
    key: Key,
    left: Option<Box<TreeNode>>,
    right: Option<Box<TreeNode>>,
    infix_store: Option<Arc<InfixStore>>,
}

/// The keys of a subtree, each with the store it carries.
spec fn tree_map(t: Option<Box<TreeNode>>) -> Map<Key, Option<Arc<InfixStore>>>
    decreases t,
{
    match t {
        None => Map::empty(),
        Some(n) => tree_map(n.left).union_prefer_right(tree_map(n.right)).insert(
            n.key,
            n.infix_store,
        ),
    }
}

/// Left keys below, right keys above, in every node.
spec fn ordered(t: Option<Box<TreeNode>>) -> bool
    decreases t,
{
    match t {
        None => true,
        Some(n) => {
            &&& ordered(n.left)
            &&& ordered(n.right)
            &&& forall|k: Key| tree_map(n.left).dom().contains(k) ==> k < n.key
            &&& forall|k: Key| tree_map(n.right).dom().contains(k) ==> k > n.key
        },
    }
}

/// Number of nodes.
spec fn tree_size(t: Option<Box<TreeNode>>) -> nat
    decreases t,
{
    match t {
        None => 0,
        Some(n) => 1 + tree_size(n.left) + tree_size(n.right),
    }
}

/// In every node the two subtrees differ in size by at most one.
spec fn balanced(t: Option<Box<TreeNode>>) -> bool
    decreases t,
{
    match t {
        None => true,
        Some(n) => {
            &&& balanced(n.left)
            &&& balanced(n.right)
            &&& tree_size(n.left) <= tree_size(n.right) + 1
            &&& tree_size(n.right) <= tree_size(n.left) + 1
        },
    }
}

/// On the search path for `k`, the largest key below `k` (the key at the last step right).
spec fn path_floor(t: Option<Box<TreeNode>>, k: Key) -> Option<Key>
    decreases t,
{
    match t {
        None => None,
        Some(n) => if k == n.key {
            None
        } else if k < n.key {
            path_floor(n.left, k)
        } else {
            match path_floor(n.right, k) {
                Some(p) => Some(p),
                None => Some(n.key),
            }
        },
    }
}

/// On the search path for `k`, the smallest key above `k` (the key at the last step left).
spec fn path_ceiling(t: Option<Box<TreeNode>>, k: Key) -> Option<Key>
    decreases t,
{
    match t {
        None => None,
        Some(n) => if k == n.key {
            None
        } else if k > n.key {
            path_ceiling(n.right, k)
        } else {
            match path_ceiling(n.left, k) {
                Some(p) => Some(p),
                None => Some(n.key),
            }
        },
    }
}

/// The keys of a subtree are its root's key and the keys of its two children.
proof fn lemma_node_dom(t: Option<Box<TreeNode>>)
    ensures
        t is None ==> tree_map(t).dom() == Set::<Key>::empty(),
        t matches Some(n) ==> forall|k: Key|
            #[trigger] tree_map(t).dom().contains(k) ==> (k == n.key || tree_map(n.left).dom().contains(k)
                || tree_map(n.right).dom().contains(k)),
        t matches Some(n) ==> forall|k: Key|
            #[trigger] tree_map(n.left).dom().contains(k) ==> tree_map(t).dom().contains(k),
        t matches Some(n) ==> forall|k: Key|
            #[trigger] tree_map(n.right).dom().contains(k) ==> tree_map(t).dom().contains(k),
        t matches Some(n) ==> tree_map(t).dom().contains(n.key) && tree_map(t)[n.key]
            == n.infix_store,
{
    if t is None {
        assert(tree_map(t).dom() =~= Set::<Key>::empty());
    }
}

/// In an ordered subtree, each key keeps the store it has in the child that holds it.
proof fn lemma_node_values(t: Option<Box<TreeNode>>)
    requires
        ordered(t),
    ensures
        t matches Some(n) ==> forall|k: Key|
            #[trigger] tree_map(n.left).dom().contains(k) ==> tree_map(t)[k] == tree_map(
                n.left,
            )[k],
        t matches Some(n) ==> forall|k: Key|
            #[trigger] tree_map(n.right).dom().contains(k) ==> tree_map(t)[k] == tree_map(
                n.right,
            )[k],
{
    if let Some(n) = t {
        assert forall|k: Key| #[trigger] tree_map(n.left).dom().contains(k) implies tree_map(t)[k]
            == tree_map(n.left)[k] by {
            assert(k < n.key);
            assert(!tree_map(n.right).dom().contains(k));
        }
        assert forall|k: Key| #[trigger] tree_map(n.right).dom().contains(k) implies tree_map(t)[k]
            == tree_map(n.right)[k] by {
            assert(k > n.key);
        }
    }
}

proof fn lemma_tree_facts(t: Option<Box<TreeNode>>)
    requires
        ordered(t),
    ensures
        tree_map(t).dom().finite(),
        tree_map(t).dom().len() == tree_size(t),
    decreases t,
{
    match t {
        None => {},
        Some(n) => {
            lemma_tree_facts(n.left);
            lemma_tree_facts(n.right);
            let l = tree_map(n.left).dom();
            let r = tree_map(n.right).dom();
            assert(l.disjoint(r));
            vstd::set_lib::lemma_set_disjoint_lens(l, r);
            assert(tree_map(t).dom() =~= l.union(r).insert(n.key));
            assert(!l.union(r).contains(n.key));
        },
    }
}

proof fn lemma_path_floor(t: Option<Box<TreeNode>>, k: Key)
    requires
        ordered(t),
    ensures
        path_floor(t, k) matches Some(p) ==> tree_map(t).dom().contains(p) && p < k,
        !tree_map(t).dom().contains(k) ==> floor_of(tree_map(t).dom(), k, path_floor(t, k)),
    decreases t,
{
    match t {
        None => {},
        Some(n) => {
            lemma_path_floor(n.left, k);
            lemma_path_floor(n.right, k);
        },
    }
}

proof fn lemma_path_ceiling(t: Option<Box<TreeNode>>, k: Key)
    requires
        ordered(t),
    ensures
        path_ceiling(t, k) matches Some(p) ==> tree_map(t).dom().contains(p) && p > k,
        !tree_map(t).dom().contains(k) ==> ceiling_of(tree_map(t).dom(), k, path_ceiling(t, k)),
    decreases t,
{
    match t {
        None => {},
        Some(n) => {
            lemma_path_ceiling(n.left, k);
            lemma_path_ceiling(n.right, k);
        },
    }
}

/// The map from each key of `keys` to no store.
pub open spec fn bare_keys(keys: Set<Key>) -> Map<Key, Option<Arc<InfixStore>>> {
    Map::new(|k: Key| keys.contains(k), |k: Key| None)
}

/// The view after attaching `store` to `key`, which changes nothing when `key` is absent.
pub open spec fn with_store(
    m: Map<Key, Option<Arc<InfixStore>>>,
    key: Key,
    store: InfixStore,
) -> Map<Key, Option<Arc<InfixStore>>> {
    if m.dom().contains(key) {
        m.insert(key, Some(Arc::new(store)))
    } else {
        m
    }
}

/// What `predecessor_infix_store(key)` returns: the store of `key` itself when it has one,
/// otherwise the store carried from the last key below `key` on its search path.
pub open spec fn predecessor_store_of(g: BinarySearchTreeGroup, key: Key) -> Option<Arc<InfixStore>> {
    if g@.dom().contains(key) && g@[key] is Some {
        g@[key]
    } else {
        g.carried_before(key)
    }
}

/// What `successor_infix_store(key)` returns: the store of `key` itself when it has one,
/// otherwise the store carried from the last key above `key` on its search path.
pub open spec fn successor_store_of(g: BinarySearchTreeGroup, key: Key) -> Option<Arc<InfixStore>> {
    if g@.dom().contains(key) && g@[key] is Some {
        g@[key]
    } else {
        g.carried_after(key)
    }
}

impl View for BinarySearchTreeGroup {
    type V = Map<Key, Option<Arc<InfixStore>>>;

    closed spec fn view(&self) -> Map<Key, Option<Arc<InfixStore>>> {
        tree_map(self.root)
    }
}

impl BinarySearchTreeGroup {
    /// In every node the two subtrees differ in size by at most one.
    pub closed spec fn is_balanced(&self) -> bool {
        balanced(self.root)
    }

    /// The tree is ordered and its size fits a `usize`.
    pub closed spec fn wf(&self) -> bool {
        ordered(self.root) && tree_size(self.root) <= usize::MAX
    }

    /// The store that `predecessor_infix_store(k)` carries when `k` itself has none: the store of
    /// the last key below `k` on the search path for `k`.
    pub closed spec fn carried_before(&self, k: Key) -> Option<Arc<InfixStore>> {
        match path_floor(self.root, k) {
            Some(p) => tree_map(self.root)[p],
            None => None,
        }
    }

    /// The store that `successor_infix_store(k)` carries when `k` itself has none: the store of
    /// the last key above `k` on the search path for `k`.
    pub closed spec fn carried_after(&self, k: Key) -> Option<Arc<InfixStore>> {
        match path_ceiling(self.root, k) {
            Some(p) => tree_map(self.root)[p],
            None => None,
        }
    }

    /// A well-formed tree holds finitely many keys, at most `usize::MAX`.
    pub proof fn lemma_finite(&self)
        requires
            self.wf(),
        ensures
            self@.dom().finite(),
            self@.len() <= usize::MAX,
    {
        lemma_tree_facts(self.root);
    }

    /// What the carried stores are, where the key itself is absent from the tree.
    pub proof fn lemma_carried(&self, k: Key)
        requires
            self.wf(),
        ensures
            !self@.dom().contains(k) ==> self.carried_before(k) == match floor_key(self@.dom(), k) {
                Some(p) => self@[p],
                None => None,
            },
            !self@.dom().contains(k) ==> self.carried_after(k) == match ceiling_key(self@.dom(), k) {
                Some(p) => self@[p],
                None => None,
            },
            self.carried_before(k) is Some ==> exists|p: Key|
                self@.dom().contains(p) && p < k && self@[p] == self.carried_before(k),
            self.carried_after(k) is Some ==> exists|p: Key|
                self@.dom().contains(p) && p > k && self@[p] == self.carried_after(k),
    {
        lemma_path_floor(self.root, k);
        lemma_path_ceiling(self.root, k);
        if !self@.dom().contains(k) {
            lemma_floor_key(self@.dom(), k, path_floor(self.root, k));
            lemma_ceiling_key(self@.dom(), k, path_ceiling(self.root, k));
        }
        if let Some(p) = path_floor(self.root, k) {
            assert(self@.dom().contains(p) && p < k && self@[p] == self.carried_before(k));
        }
        if let Some(p) = path_ceiling(self.root, k) {
            assert(self@.dom().contains(p) && p > k && self@[p] == self.carried_after(k));
        }
    }

    /// A tree built from a slice holds exactly the keys of the slice: `contains(k)` answers
    /// whether `k` is among them, for every `k`.
    pub proof fn lemma_contains_law(keys: Seq<Key>, t: BinarySearchTreeGroup, k: Key)
        requires
            t.wf(),
            t@ == bare_keys(keys.to_set()),
        ensures
            t@.dom().contains(k) <==> keys.contains(k),
    {
        assert(keys.contains(k) <==> keys.to_set().contains(k));
    }

    pub fn new() -> (r: Self)
        ensures
            r.wf(),
            r@ == Map::<Key, Option<Arc<InfixStore>>>::empty(),
    {
        BinarySearchTreeGroup { root: None }
    }

    /// A balanced tree over the distinct keys of `keys`, none of them with a store.
    pub fn new_with_keys(keys: &[Key]) -> (r: Self)
        ensures
            r.wf(),
            r@ == bare_keys(keys@.to_set()),
            r.is_balanced(),
    {
        let sorted_keys = sorted_unique_keys(keys);
        let root = Self::top_down_bst_insertion(&sorted_keys, 0, sorted_keys.len());
        let r = BinarySearchTreeGroup { root };
        assert(sorted_keys@.subrange(0, sorted_keys@.len() as int) =~= sorted_keys@);
        assert(r@ =~= bare_keys(keys@.to_set()));
        r
    }

    /// The subtree over `keys[start..end]`, rooted at the midpoint.
    fn top_down_bst_insertion(keys: &Vec<Key>, start: usize, end: usize) -> (r: Option<
        Box<TreeNode>,
    >)
        requires
            start <= end <= keys@.len(),
            strictly_sorted(keys@),
        ensures
            ordered(r),
            tree_map(r) == bare_keys(keys@.subrange(start as int, end as int).to_set()),
            tree_size(r) == end - start,
            balanced(r),
        decreases end - start,
    {
        if start >= end {
            assert(keys@.subrange(start as int, end as int).to_set() =~= Set::empty());
            assert(tree_map(None) =~= bare_keys(Set::empty()));
            return None;
        }
        let mid = start + (end - 1 - start) / 2;
        let left = Self::top_down_bst_insertion(keys, start, mid);
        let right = Self::top_down_bst_insertion(keys, mid + 1, end);
        let node = TreeNode { key: keys[mid], left, right, infix_store: None };
        proof {
            let s = keys@.subrange(start as int, end as int);
            let ls = keys@.subrange(start as int, mid as int);
            let rs = keys@.subrange(mid + 1, end as int);
            assert forall|k: Key| tree_map(left).dom().contains(k) implies k < keys@[mid as int] by {
                assert(ls.to_set().contains(k));
                let i = choose|i: int| 0 <= i < ls.len() && ls[i] == k;
                assert(ls[i] == keys@[start + i]);
            }
            assert forall|k: Key| tree_map(right).dom().contains(k) implies k > keys@[mid as int] by {
                assert(rs.to_set().contains(k));
                let i = choose|i: int| 0 <= i < rs.len() && rs[i] == k;
                assert(rs[i] == keys@[mid + 1 + i]);
            }
            assert forall|k: Key| s.to_set().contains(k) <==> (ls.to_set().contains(k)
                || rs.to_set().contains(k) || k == keys@[mid as int]) by {
                if s.to_set().contains(k) {
                    let i = choose|i: int| 0 <= i < s.len() && s[i] == k;
                    if i < mid - start {
                        assert(ls[i] == k);
                    } else if i > mid - start {
                        assert(rs[i - (mid - start) - 1] == k);
                    }
                }
                if ls.to_set().contains(k) {
                    let i = choose|i: int| 0 <= i < ls.len() && ls[i] == k;
                    assert(s[i] == k);
                }
                if rs.to_set().contains(k) {
                    let i = choose|i: int| 0 <= i < rs.len() && rs[i] == k;
                    assert(s[i + (mid - start) + 1] == k);
                }
                if k == keys@[mid as int] {
                    assert(s[mid - start] == k);
                }
            }
            assert(tree_map(Some(Box::new(node))) =~= bare_keys(s.to_set()));
        }
        Some(Box::new(node))
    }

    /// Number of keys in the tree.
    pub fn len(&self) -> (r: usize)
        requires
            self.wf(),
        ensures
            r == self@.len(),
            self@.dom().finite(),
    {
        proof {
            lemma_tree_facts(self.root);
        }
        Self::len_recursive(&self.root)
    }

    fn len_recursive(node: &Option<Box<TreeNode>>) -> (r: usize)
        requires
            tree_size(*node) <= usize::MAX,
        ensures
            r == tree_size(*node),
        decreases *node,
    {
        match node {
            None => 0,
            Some(n) => 1 + Self::len_recursive(&n.left) + Self::len_recursive(&n.right),
        }
    }

    /// Adds `key` with no store; a key already present is left as it is.
    pub fn insert(&mut self, key: Key)
        requires
            old(self).wf(),
            old(self)@.dom().contains(key) || old(self)@.len() < usize::MAX,
        ensures
            final(self).wf(),
            final(self)@ == if old(self)@.dom().contains(key) {
                old(self)@
            } else {
                old(self)@.insert(key, None)
            },
    {
        proof {
            lemma_tree_facts(self.root);
        }
        Self::insert_recursive(&mut self.root, key);
        proof {
            lemma_tree_facts(self.root);
        }
    }

    fn insert_recursive(node: &mut Option<Box<TreeNode>>, key: Key)
        requires
            ordered(*old(node)),
        ensures
            ordered(*final(node)),
            tree_map(*final(node)) == if tree_map(*old(node)).dom().contains(key) {
                tree_map(*old(node))
            } else {
                tree_map(*old(node)).insert(key, None)
            },
        decreases *old(node),
    {
        match node.take() {
            None => {
                let leaf = TreeNode { key, left: None, right: None, infix_store: None };
                *node = Some(Box::new(leaf));
                assert(tree_map(*node) =~= tree_map(None).insert(key, None));
            },
            Some(mut n) => {
                let ghost before = tree_map(Some(n));
                if key < n.key {
                    Self::insert_recursive(&mut n.left, key);
                    assert(!tree_map(n.right).dom().contains(key));
                } else if key > n.key {
                    Self::insert_recursive(&mut n.right, key);
                    assert(!tree_map(n.left).dom().contains(key));
                }
                assert(tree_map(Some(n)) =~= if before.dom().contains(key) {
                    before
                } else {
                    before.insert(key, None)
                });
                *node = Some(n);
            },
        }
    }

    /// Whether `key` is in the tree.
    pub fn contains(&self, key: Key) -> (r: bool)
        requires
            self.wf(),
        ensures
            r == self@.dom().contains(key),
    {
        Self::contains_recursive(&self.root, key)
    }

    fn contains_recursive(node: &Option<Box<TreeNode>>, key: Key) -> (r: bool)
        requires
            ordered(*node),
        ensures
            r == tree_map(*node).dom().contains(key),
        decreases *node,
    {
        proof {
            lemma_node_dom(*node);
        }
        match node {
            None => false,
            Some(n) => {
                if key == n.key {
                    true
                } else if key < n.key {
                    Self::contains_recursive(&n.left, key)
                } else {
                    Self::contains_recursive(&n.right, key)
                }
            },
        }
    }

    fn find_node_mut(node: &mut Option<Box<TreeNode>>, key: Key, store: Option<Arc<InfixStore>>)
        requires
            ordered(*old(node)),
        ensures
            ordered(*final(node)),
            tree_map(*final(node)) == if tree_map(*old(node)).dom().contains(key) {
                tree_map(*old(node)).insert(key, store)
            } else {
                tree_map(*old(node))
            },
        decreases *old(node),
    {
        match node.take() {
            None => {},
            Some(mut n) => {
                let ghost before = tree_map(Some(n));
                if key == n.key {
                    n.infix_store = store;
                } else if key < n.key {
                    Self::find_node_mut(&mut n.left, key, store);
                    assert(!tree_map(n.right).dom().contains(key));
                } else {
                    Self::find_node_mut(&mut n.right, key, store);
                    assert(!tree_map(n.left).dom().contains(key));
                }
                assert(tree_map(Some(n)) =~= if before.dom().contains(key) {
                    before.insert(key, store)
                } else {
                    before
                });
                *node = Some(n);
            },
        }
    }

    /// Attaches `infix_store` to `key`; a key absent from the tree leaves the tree as it is.
    pub fn set_infix_store(&mut self, key: Key, infix_store: InfixStore)
        requires
            old(self).wf(),
        ensures
            final(self).wf(),
            final(self)@ == with_store(old(self)@, key, infix_store),
    {
        let store = Arc::new(infix_store);
        proof {
            lemma_tree_facts(self.root);
        }
        Self::find_node_mut(&mut self.root, key, Some(store));
        proof {
            lemma_tree_facts(self.root);
        }
    }

    /// The store attached to `key`, if `key` is in the tree and has one.
    pub fn get_infix_store(&self, key: Key) -> (r: Option<Arc<InfixStore>>)
        requires
            self.wf(),
        ensures
            r == if self@.dom().contains(key) {
                self@[key]
            } else {
                None
            },
    {
        Self::get_infix_store_recursive(&self.root, key)
    }

    fn get_infix_store_recursive(node: &Option<Box<TreeNode>>, key: Key) -> (r: Option<
        Arc<InfixStore>,
    >)
        requires
            ordered(*node),
        ensures
            r == if tree_map(*node).dom().contains(key) {
                tree_map(*node)[key]
            } else {
                None
            },
        decreases *node,
    {
        proof {
            lemma_node_dom(*node);
        }
        match node {
            None => None,
            Some(n) => {
                if key == n.key {
                    match &n.infix_store {
                        Some(s) => Some(s.clone()),
                        None => None,
                    }
                } else if key < n.key {
                    let r = Self::get_infix_store_recursive(&n.left, key);
                    assert(!tree_map(n.right).dom().contains(key));
                    r
                } else {
                    let r = Self::get_infix_store_recursive(&n.right, key);
                    assert(!tree_map(n.left).dom().contains(key));
                    r
                }
            },
        }
    }

    /// The store of `key` itself when it has one; otherwise the store carried down the search
    /// path from the last key below `key`. Where `key` is absent from the tree, that is the
    /// store of its predecessor.
    pub fn predecessor_infix_store(&self, key: Key) -> (r: Option<Arc<InfixStore>>)
        requires
            self.wf(),
        ensures
            r == predecessor_store_of(*self, key),
    {
        Self::predecessor_store_recursive(&self.root, key, None)
    }

    /// The largest key at most `key`.
    pub fn predecessor(&self, key: Key) -> (r: Option<Key>)
        requires
            self.wf(),
        ensures
            floor_of(self@.dom(), key, r),
    {
        Self::predecessor_recursive(&self.root, key, None)
    }

    fn predecessor_recursive(node: &Option<Box<TreeNode>>, key: Key, best: Option<Key>) -> (r:
        Option<Key>)
        requires
            ordered(*node),
            best is Some ==> best->0 <= key,
            forall|k: Key| #[trigger]
                tree_map(*node).dom().contains(k) && best is Some ==> k > best->0,
        ensures
            floor_of(
                match best {
                    Some(b) => tree_map(*node).dom().insert(b),
                    None => tree_map(*node).dom(),
                },
                key,
                r,
            ),
        decreases *node,
    {
        proof {
            lemma_node_dom(*node);
        }
        match node {
            None => {
                proof {
                    if let Some(b) = best {
                        assert(tree_map(*node).dom().insert(b) =~= set![b]);
                    }
                }
                best
            },
            Some(n) => {
                let ghost whole = match best {
                    Some(b) => tree_map(*node).dom().insert(b),
                    None => tree_map(*node).dom(),
                };
                if n.key == key {
                    Some(n.key)
                } else if key < n.key {
                    let r = Self::predecessor_recursive(&n.left, key, best);
                    proof {
                        let part = match best {
                            Some(b) => tree_map(n.left).dom().insert(b),
                            None => tree_map(n.left).dom(),
                        };
                        lemma_floor_transfer(part, whole, key, r, n.key);
                    }
                    r
                } else {
                    let r = Self::predecessor_recursive(&n.right, key, Some(n.key));
                    proof {
                        let part = tree_map(n.right).dom().insert(n.key);
                        lemma_floor_transfer(part, whole, key, r, n.key);
                    }
                    r
                }
            },
        }
    }

    /// The smallest key at least `key`.
    pub fn successor(&self, key: Key) -> (r: Option<Key>)
        requires
            self.wf(),
        ensures
            ceiling_of(self@.dom(), key, r),
    {
        Self::successor_recursive(&self.root, key, None)
    }

    fn successor_recursive(node: &Option<Box<TreeNode>>, key: Key, best: Option<Key>) -> (r:
        Option<Key>)
        requires
            ordered(*node),
            best is Some ==> best->0 >= key,
            forall|k: Key| #[trigger]
                tree_map(*node).dom().contains(k) && best is Some ==> k < best->0,
        ensures
            ceiling_of(
                match best {
                    Some(b) => tree_map(*node).dom().insert(b),
                    None => tree_map(*node).dom(),
                },
                key,
                r,
            ),
        decreases *node,
    {
        proof {
            lemma_node_dom(*node);
        }
        match node {
            None => {
                proof {
                    if let Some(b) = best {
                        assert(tree_map(*node).dom().insert(b) =~= set![b]);
                    }
                }
                best
            },
            Some(n) => {
                let ghost whole = match best {
                    Some(b) => tree_map(*node).dom().insert(b),
                    None => tree_map(*node).dom(),
                };
                if n.key == key {
                    Some(n.key)
                } else if key < n.key {
                    let r = Self::successor_recursive(&n.left, key, Some(n.key));
                    proof {
                        let part = tree_map(n.left).dom().insert(n.key);
                        lemma_ceiling_transfer(part, whole, key, r, n.key);
                    }
                    r
                } else {
                    let r = Self::successor_recursive(&n.right, key, best);
                    proof {
                        let part = match best {
                            Some(b) => tree_map(n.right).dom().insert(b),
                            None => tree_map(n.right).dom(),
                        };
                        lemma_ceiling_transfer(part, whole, key, r, n.key);
                    }
                    r
                }
            },
        }
    }

    fn predecessor_store_recursive(
        node: &Option<Box<TreeNode>>,
        key: Key,
        best: Option<Arc<InfixStore>>,
    ) -> (r: Option<Arc<InfixStore>>)
        requires
            ordered(*node),
        ensures
            r == if tree_map(*node).dom().contains(key) && tree_map(*node)[key] is Some {
                tree_map(*node)[key]
            } else {
                match path_floor(*node, key) {
                    Some(p) => tree_map(*node)[p],
                    None => best,
                }
            },
        decreases *node,
    {
        proof {
            lemma_node_dom(*node);
            lemma_node_values(*node);
        }
        proof {
            lemma_path_floor(*node, key);
        }
        match node {
            None => best,
            Some(n) => {
                if n.key == key {
                    match &n.infix_store {
                        Some(s) => Some(s.clone()),
                        None => best,
                    }
                } else if key < n.key {
                    proof {
                        lemma_path_floor(n.left, key);
                    }
                    Self::predecessor_store_recursive(&n.left, key, best)
                } else {
                    let carried = match &n.infix_store {
                        Some(s) => Some(s.clone()),
                        None => None,
                    };
                    proof {
                        lemma_path_floor(n.right, key);
                    }
                    Self::predecessor_store_recursive(&n.right, key, carried)
                }
            },
        }
    }

    /// The store of `key` itself when it has one; otherwise the store carried down the search
    /// path from the last key above `key`. Where `key` is absent from the tree, that is the
    /// store of its successor.
    pub fn successor_infix_store(&self, key: Key) -> (r: Option<Arc<InfixStore>>)
        requires
            self.wf(),
        ensures
            r == successor_store_of(*self, key),
    {
        Self::successor_store_recursive(&self.root, key, None)
    }

    fn successor_store_recursive(
        node: &Option<Box<TreeNode>>,
        key: Key,
        best: Option<Arc<InfixStore>>,
    ) -> (r: Option<Arc<InfixStore>>)
        requires
            ordered(*node),
        ensures
            r == if tree_map(*node).dom().contains(key) && tree_map(*node)[key] is Some {
                tree_map(*node)[key]
            } else {
                match path_ceiling(*node, key) {
                    Some(p) => tree_map(*node)[p],
                    None => best,
                }
            },
        decreases *node,
    {
        proof {
            lemma_node_dom(*node);
            lemma_node_values(*node);
        }
        proof {
            lemma_path_ceiling(*node, key);
        }
        match node {
            None => best,
            Some(n) => {
                if n.key == key {
                    match &n.infix_store {
                        Some(s) => Some(s.clone()),
                        None => best,
                    }
                } else if key < n.key {
                    let carried = match &n.infix_store {
                        Some(s) => Some(s.clone()),
                        None => None,
                    };
                    proof {
                        lemma_path_ceiling(n.left, key);
                    }
                    Self::successor_store_recursive(&n.left, key, carried)
                } else {
                    proof {
                        lemma_path_ceiling(n.right, key);
                    }
                    Self::successor_store_recursive(&n.right, key, best)
                }
            },
        }
    }

    /// The node of the smallest key of a subtree.
    #[allow(dead_code)]
    fn min_node(node: &Option<Box<TreeNode>>) -> (r: Option<&TreeNode>)
        requires
            ordered(*node),
        ensures
            match r {
                Some(n) => ceiling_of(tree_map(*node).dom(), 0, Some(n.key)),
                None => *node is None,
            },
        decreases *node,
    {
        proof {
            lemma_node_dom(*node);
        }
        match node {
            None => None,
            Some(n) => {
                proof {
                    lemma_node_dom(n.left);
                }
                if n.left.is_none() {
                    Some(n)
                } else {
                    Self::min_node(&n.left)
                }
            },
        }
    }

    /// The node of the largest key of a subtree.
    #[allow(dead_code)]
    fn max_node(node: &Option<Box<TreeNode>>) -> (r: Option<&TreeNode>)
        requires
            ordered(*node),
        ensures
            match r {
                Some(n) => floor_of(tree_map(*node).dom(), u64::MAX, Some(n.key)),
                None => *node is None,
            },
        decreases *node,
    {
        proof {
            lemma_node_dom(*node);
        }
        match node {
            None => None,
            Some(n) => {
                proof {
                    lemma_node_dom(n.right);
                }
                if n.right.is_none() {
                    Some(n)
                } else {
                    Self::max_node(&n.right)
                }
            },
        }
    }

    /// The smallest key of a subtree.
    #[allow(dead_code)]
    fn min_key(node: &Option<Box<TreeNode>>) -> (r: Option<Key>)
        requires
            ordered(*node),
        ensures
            ceiling_of(tree_map(*node).dom(), 0, r),
        decreases *node,
    {
        proof {
            lemma_node_dom(*node);
        }
        match node {
            None => None,
            Some(n) => {
                proof {
                    lemma_node_dom(n.left);
                }
                if n.left.is_none() {
                    Some(n.key)
                } else {
                    Self::min_key(&n.left)
                }
            },
        }
    }

    /// The largest key of a subtree.
    #[allow(dead_code)]
    fn max_key(node: &Option<Box<TreeNode>>) -> (r: Option<Key>)
        requires
            ordered(*node),
        ensures
            floor_of(tree_map(*node).dom(), u64::MAX, r),
        decreases *node,
    {
        proof {
            lemma_node_dom(*node);
        }
        match node {
            None => None,
            Some(n) => {
                proof {
                    lemma_node_dom(n.right);
                }
                if n.right.is_none() {
                    Some(n.key)
                } else {
                    Self::max_key(&n.right)
                }
            },
        }
    }
}

} // verus!
