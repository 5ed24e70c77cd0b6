//! The search tree that can hand out one of its entries at random.
use crate::counting::{lemma_volume, runs_within};
use crate::node::{Link, Node};
use crate::order::total_order;
use crate::traversal::{
    by_rows, children, lemma_level_order_by_rows, lemma_level_order_holds, lemma_level_order_len,
    lemma_level_order_root, level_order, link_level_order, link_nodes, IntoIter, Iter,
};
use rand::rngs::ThreadRng;
use vstd::prelude::*;

verus! {

/// An unbalanced binary search tree from keys to values in which every node
/// caches the number of nodes below it. The cache is what lets [`random`]
/// reach a uniformly chosen entry by a single walk from the root.
///
/// [`random`]: RandomTree::random
#[derive(Debug)]
pub struct RandomTree<K, V> {
    root: Link<K, V>,
}

/// One change to a tree.
pub enum Edit<K, V> {
    /// `insert(key, value)`.
    Insert(K, V),
    /// `remove(key)`.
    Remove(K),
}

/// The map after the given changes have been made to it one after the other.
pub open spec fn with_edits<K, V>(map: Map<K, V>, edits: Seq<Edit<K, V>>) -> Map<K, V>
    decreases edits.len(),
{
    if edits.len() == 0 {
        map
    } else {
        with_edits(
            match edits[0] {
                Edit::Insert(key, value) => map.insert(key, value),
                Edit::Remove(key) => map.remove(key),
            },
            edits.skip(1),
        )
    }
}

/// The map after the given entries have been put into it one after the
/// other, first to last.
pub open spec fn with_entries<K, V>(map: Map<K, V>, entries: Seq<(K, V)>) -> Map<K, V>
    decreases entries.len(),
{
    if entries.len() == 0 {
        map
    } else {
        with_entries(map.insert(entries[0].0, entries[0].1), entries.skip(1))
    }
}

/// No two of the entries give one key two values.
pub open spec fn agreeing<K, V>(entries: Seq<(K, V)>) -> bool {
    forall|i: int, j: int|
        0 <= i < entries.len() && 0 <= j < entries.len() && (#[trigger] entries[i]).0 == (
        #[trigger] entries[j]).0 ==> entries[i].1 == entries[j].1
}

/// Some entry has `key` for its key.
pub open spec fn mentions<K, V>(entries: Seq<(K, V)>, key: K) -> bool {
    exists|i: int| 0 <= i < entries.len() && (#[trigger] entries[i]).0 == key
}

/// The keys afterwards are the map's and the entries'.
pub proof fn lemma_with_entries_keys<K, V>(map: Map<K, V>, entries: Seq<(K, V)>, key: K)
    ensures
        with_entries(map, entries).contains_key(key) <==> map.contains_key(key) || mentions(
            entries,
            key,
        ),
    decreases entries.len(),
{
    if entries.len() != 0 {
        let rest = entries.skip(1);
        lemma_with_entries_keys(map.insert(entries[0].0, entries[0].1), rest, key);
        if mentions(rest, key) {
            let i = choose|i: int| 0 <= i < rest.len() && (#[trigger] rest[i]).0 == key;
            assert(entries[i + 1].0 == key);
        }
        if mentions(entries, key) {
            let i = choose|i: int| 0 <= i < entries.len() && (#[trigger] entries[i]).0 == key;
            if i > 0 {
                assert(rest[i - 1].0 == key);
            }
        }
        if entries[0].0 == key {
            assert(mentions(entries, key));
        }
    }
}

/// Of the entries that share a key the last one decides the value.
pub proof fn lemma_with_entries_last<K, V>(map: Map<K, V>, entries: Seq<(K, V)>, at: int)
    requires
        0 <= at < entries.len(),
        forall|j: int| at < j < entries.len() ==> (#[trigger] entries[j]).0 != entries[at].0,
    ensures
        with_entries(map, entries).contains_pair(entries[at].0, entries[at].1),
    decreases entries.len(),
{
    let rest = entries.skip(1);
    let next = map.insert(entries[0].0, entries[0].1);
    if at > 0 {
        assert(rest[at - 1] == entries[at]);
        assert forall|j: int| at - 1 < j < rest.len() implies (#[trigger] rest[j]).0 != rest[at
            - 1].0 by {
            assert(rest[j] == entries[j + 1]);
        }
        lemma_with_entries_last(next, rest, at - 1);
    } else {
        assert forall|j: int| 0 <= j < rest.len() implies (#[trigger] rest[j]).0
            != entries[0].0 by {
            assert(rest[j] == entries[j + 1]);
        }
        lemma_with_entries_miss(next, rest, entries[0].0);
    }
}

/// A key that none of the entries has stays as it was in the map.
pub proof fn lemma_with_entries_miss<K, V>(map: Map<K, V>, entries: Seq<(K, V)>, key: K)
    requires
        forall|i: int| 0 <= i < entries.len() ==> (#[trigger] entries[i]).0 != key,
    ensures
        with_entries(map, entries).contains_key(key) == map.contains_key(key),
        with_entries(map, entries)[key] == map[key],
    decreases entries.len(),
{
    if entries.len() != 0 {
        let rest = entries.skip(1);
        assert forall|i: int| 0 <= i < rest.len() implies (#[trigger] rest[i]).0 != key by {
            assert(rest[i] == entries[i + 1]);
        }
        assert(entries[0].0 != key);
        lemma_with_entries_miss(map.insert(entries[0].0, entries[0].1), rest, key);
    }
}

/// Each of the entries is in the map afterwards, if they agree.
pub proof fn lemma_with_entries_hit<K, V>(map: Map<K, V>, entries: Seq<(K, V)>, at: int)
    requires
        0 <= at < entries.len(),
        agreeing(entries),
    ensures
        with_entries(map, entries).contains_pair(entries[at].0, entries[at].1),
    decreases entries.len(),
{
    let rest = entries.skip(1);
    let next = map.insert(entries[0].0, entries[0].1);
    assert forall|i: int, j: int|
        0 <= i < rest.len() && 0 <= j < rest.len() && (#[trigger] rest[i]).0 == (
        #[trigger] rest[j]).0 implies rest[i].1 == rest[j].1 by {
        assert(rest[i] == entries[i + 1]);
        assert(rest[j] == entries[j + 1]);
    }
    if at > 0 {
        assert(rest[at - 1] == entries[at]);
        lemma_with_entries_hit(next, rest, at - 1);
    } else if exists|j: int| 0 <= j < rest.len() && (#[trigger] rest[j]).0 == entries[0].0 {
        let j = choose|j: int| 0 <= j < rest.len() && (#[trigger] rest[j]).0 == entries[0].0;
        assert(rest[j] == entries[j + 1]);
        lemma_with_entries_hit(next, rest, j);
    } else {
        lemma_with_entries_miss(next, rest, entries[0].0);
    }
}

impl<K: Ord, V> View for RandomTree<K, V> {
    type V = Map<K, V>;

    /// The tree as the map from its keys to their values.
    open spec fn view(&self) -> Map<K, V> {
        Node::link_map(self.spec_root())
    }
}

impl<K: Ord, V> RandomTree<K, V> {
    /// The root slot.
    pub closed spec fn spec_root(&self) -> Link<K, V> {
        self.root
    }

    /// The tree that has `root` for its root slot.
    pub closed spec fn rooted(root: Link<K, V>) -> Self {
        RandomTree { root }
    }

    /// The invariant that every operation keeps: search-tree order, and at
    /// every node a cached count equal to the number of nodes below it.
    pub open spec fn wf(&self) -> bool {
        Node::link_wf(self.spec_root())
    }

    /// The entries in breadth-first order, as the traversals yield them.
    pub open spec fn entries(&self) -> Seq<(K, V)> {
        link_level_order(self.spec_root())
    }

    /// The keys in breadth-first order.
    pub open spec fn keys(&self) -> Seq<K> {
        self.entries().map_values(|entry: (K, V)| entry.0)
    }

    /// The value under `key`, if the key is present.
    pub open spec fn lookup(&self, key: K) -> Option<V> {
        if self@.contains_key(key) {
            Some(self@[key])
        } else {
            None
        }
    }

    /// The entry at which the weighted walk from the root ends when it meets
    /// with the given draws, one at every node it visits; `None` where the
    /// draws are not those of a walk.
    pub open spec fn walk(&self, draws: Seq<usize>) -> Option<(K, V)> {
        Node::link_walk(self.spec_root(), draws)
    }

    /// The ranges from which the draws are made on the way from the root to
    /// `key`: at every node one index out of as many as its subtree has nodes.
    pub open spec fn drawn(&self, key: K) -> Seq<(int, int)> {
        Node::link_drawn(self.spec_root(), key)
    }

    /// The runs of draws for which the walk ends at `key`.
    pub open spec fn walks_to(&self, key: K) -> Set<Seq<usize>> {
        Set::new(|draws: Seq<usize>| self.walk(draws) == Some((key, self@[key])))
    }

    /// The subtree whose root holds `key`, if the key is present.
    pub open spec fn branch(&self, key: K) -> Link<K, V> {
        Node::link_branch(self.spec_root(), key)
    }

    /// The tree after `insert(key, value)`.
    pub open spec fn inserted(&self, key: K, value: V) -> Self {
        Self::rooted(Node::link_inserted(self.spec_root(), key, value))
    }

    /// The tree after the branch that holds `key` has been cut off and the
    /// counts above the cut have been brought up to date.
    pub open spec fn pruned(&self, key: K) -> Self {
        Self::rooted(Node::link_recounted(Node::link_cut(self.spec_root(), key)))
    }

    /// The tree after the given entries have been inserted one after the
    /// other, first to last.
    pub open spec fn refilled(&self, entries: Seq<(K, V)>) -> Self
        decreases entries.len(),
    {
        if entries.len() == 0 {
            *self
        } else {
            self.inserted(entries[0].0, entries[0].1).refilled(entries.skip(1))
        }
    }

    /// The tree after the given changes have been made to it one after the
    /// other.
    pub open spec fn edited(&self, edits: Seq<Edit<K, V>>) -> Self
        decreases edits.len(),
    {
        if edits.len() == 0 {
            *self
        } else {
            match edits[0] {
                Edit::Insert(key, value) => self.inserted(key, value),
                Edit::Remove(key) => self.removed(key),
            }.edited(edits.skip(1))
        }
    }

    /// The tree after `remove(key)`: the branch under the key is cut off and
    /// all of its entries but the first, which is the key's own, are inserted
    /// again in breadth-first order.
    pub open spec fn removed(&self, key: K) -> Self {
        match self.branch(key) {
            None => *self,
            Some(node) => self.pruned(key).refilled(level_order(seq![*node]).skip(1)),
        }
    }

    /// An empty tree.
    pub fn new() -> (tree: Self)
        ensures
            tree == Self::rooted(None),
            tree.wf(),
            tree@ == Map::<K, V>::empty(),
            tree.entries() == Seq::<(K, V)>::empty(),
    {
        let tree = RandomTree { root: None };
        proof {
            Node::<K, V>::lemma_link(tree.root);
            Self::lemma_entries_of_empty();
        }
        tree
    }

    /// Selects one entry at random, each with the same chance, by a weighted
    /// walk from the root; see [`Node::random`]. What comes back is the entry
    /// at which the walk ends for the draws that were made. An empty tree
    /// yields `None` and no other tree does.
    pub fn random(&self, rng: &mut ThreadRng) -> (picked: Option<(&K, &V)>)
        requires
            total_order::<K>(),
            self.wf(),
        ensures
            match picked {
                Some((key, value)) => {
                    &&& exists|draws: Seq<usize>| #[trigger]
                        self.walk(draws) == Some((*key, *value))
                    &&& self@.contains_pair(*key, *value)
                },
                None => self@ == Map::<K, V>::empty(),
            },
    {
        proof {
            Node::<K, V>::lemma_link(self.root);
        }
        match &self.root {
            Some(root) => {
                let picked = root.random(rng);
                proof {
                    let draws = choose|draws: Seq<usize>| #[trigger]
                        root.walk(draws) == Some((*picked.0, *picked.1));
                    Node::lemma_link_walk(self.root, draws);
                    assert(self.walk(draws) == Some((*picked.0, *picked.1)));
                }
                Some(picked)
            },
            None => None,
        }
    }

    /// Puts `value` under `key`. A key that is present keeps its node and has
    /// its value replaced, which is returned; a new key becomes a leaf where
    /// the descent for it ends, and `None` is returned.
    pub fn insert(&mut self, key: K, value: V) -> (replaced: Option<V>)
        requires
            total_order::<K>(),
            old(self).wf(),
            old(self)@.contains_key(key) || old(self)@.len() < usize::MAX,
        ensures
            *final(self) == old(self).inserted(key, value),
            final(self).wf(),
            final(self)@ == old(self)@.insert(key, value),
            replaced == old(self).lookup(key),
    {
        proof {
            Node::lemma_branch(self.root, key);
            Node::lemma_with_value(self.root, key, value);
            Node::lemma_map_size(self.root);
            if !self@.contains_key(key) {
                Node::lemma_grown(self.root, key, value);
            }
        }
        let mut value = value;
        match Node::find_mut(&mut self.root, &key) {
            Some(slot) => {
                std::mem::swap(slot, &mut value);
                Some(value)
            },
            None => {
                Node::insert_aux(&mut self.root, key, value);
                None
            },
        }
    }

    /// The value under `key`, if the key is present.
    pub fn get(&self, key: &K) -> (value: Option<&V>)
        requires
            total_order::<K>(),
            self.wf(),
        ensures
            value == if self@.contains_key(*key) {
                Some(&self@[*key])
            } else {
                None::<&V>
            },
    {
        proof {
            Node::lemma_branch(self.root, *key);
        }
        match self.find(key) {
            Some(node) => Some(node.value()),
            None => None,
        }
    }

    /// The value under `key`, for writing, if the key is present. Whatever is
    /// written becomes the key's value; nothing else changes.
    pub fn get_mut(&mut self, key: &K) -> (value: Option<&mut V>)
        requires
            total_order::<K>(),
            old(self).wf(),
        ensures
            match value {
                Some(slot) => {
                    &&& old(self)@.contains_key(*key)
                    &&& *slot == old(self)@[*key]
                    &&& *final(self) == old(self).inserted(*key, *final(slot))
                    &&& final(self)@ == old(self)@.insert(*key, *final(slot))
                    &&& final(self).wf()
                },
                None => !old(self)@.contains_key(*key) && *final(self) == *old(self),
            },
    {
        proof {
            Node::lemma_branch(self.root, *key);
            assert forall|value: V|
                Node::link_wf(#[trigger] Node::link_with_value(self.root, *key, value))
                    && Node::link_map(Node::link_with_value(self.root, *key, value))
                    == self@.insert(*key, value) || !self@.contains_key(*key) by {
                Node::lemma_with_value(self.root, *key, value);
            }
        }
        Node::find_mut(&mut self.root, key)
    }

    /// Whether `key` is present.
    pub fn has(&self, key: &K) -> (present: bool)
        requires
            total_order::<K>(),
            self.wf(),
        ensures
            present == self@.contains_key(*key),
    {
        self.get(key).is_some()
    }

    /// The node that holds `key`, if the key is present: the root of
    /// `self.branch(*key)`.
    pub fn find(&self, key: &K) -> (found: Option<&Node<K, V>>)
        requires
            total_order::<K>(),
            self.wf(),
        ensures
            match found {
                Some(node) => {
                    &&& self.branch(*key) == Some(Box::new(*node))
                    &&& self@.contains_key(*key)
                    &&& node.spec_key() == *key
                    &&& node.spec_value() == self@[*key]
                    &&& node.wf()
                },
                None => self.branch(*key) is None && !self@.contains_key(*key),
            },
    {
        proof {
            Node::lemma_branch(self.root, *key);
        }
        Node::find(&self.root, key)
    }

    /// Cuts the branch whose root holds `key` off the tree and returns it.
    /// What stays behind is the tree without the branch's entries, its counts
    /// brought up to date. Without the key nothing is cut and the tree stays
    /// as it was.
    pub fn take_branch(&mut self, key: &K) -> (branch: Link<K, V>)
        requires
            total_order::<K>(),
            old(self).wf(),
        ensures
            branch == old(self).branch(*key),
            *final(self) == old(self).pruned(*key),
            final(self).wf(),
            Node::link_wf(branch),
            final(self)@ == old(self)@.remove_keys(Node::link_map(branch).dom()),
            final(self)@.len() + Node::link_size(branch) == old(self)@.len(),
            match branch {
                Some(node) => {
                    &&& node.spec_key() == *key
                    &&& old(self)@.contains_key(*key)
                    &&& node.spec_value() == old(self)@[*key]
                    &&& node.as_map().submap_of(old(self)@)
                },
                None => !old(self)@.contains_key(*key) && *final(self) == *old(self),
            },
    {
        proof {
            Node::lemma_branch(self.root, *key);
            Node::lemma_cut(self.root, *key);
            Node::lemma_link(Node::link_cut(self.root, *key));
            Self::lemma_pruned(*self, *key);
        }
        let branch = Node::detach(&mut self.root, key);
        match &mut self.root {
            Some(root) => {
                root.calc_descendants();
            },
            None => {},
        }
        branch
    }

    /// Takes `key` out and returns its value, or `None` if the key is absent.
    /// The branch under the key is cut off and its other entries are
    /// inserted again in breadth-first order, which keeps them roughly in the
    /// shape they had.
    pub fn remove(&mut self, key: &K) -> (removed: Option<V>)
        requires
            total_order::<K>(),
            old(self).wf(),
        ensures
            *final(self) == old(self).removed(*key),
            final(self).wf(),
            final(self)@ == old(self)@.remove(*key),
            removed == old(self).lookup(*key),
    {
        proof {
            Self::lemma_removed(*self, *key);
            Node::lemma_map_size(self.root);
        }
        let ghost target = self.removed(*key);
        let branch = match self.take_branch(key) {
            Some(branch) => branch,
            None => {
                return None;
            },
        };
        proof {
            lemma_level_order_root(*branch);
            Node::lemma_map_size(self.root);
            Node::lemma_map_size(old(self).root);
            Node::lemma_link(old(self).root);
            Node::lemma_link(Some(branch));
        }
        let mut entries = (*branch).into_iter();
        let first = entries.next().unwrap();
        let ghost rest = entries.pending();
        assert(rest.skip(0) =~= rest);
        for entry in it: entries
            invariant
                total_order::<K>(),
                it.seq() == rest,
                self.wf(),
                self@.dom().finite(),
                self@.len() + (rest.len() - it.index()) < usize::MAX,
                self.refilled(rest.skip(it.index())) == target,
        {
            proof {
                assert(rest.skip(it.index()).skip(1) =~= rest.skip(it.index() + 1));
            }
            self.insert(entry.0, entry.1);
        }
        assert(rest.skip(rest.len() as int) =~= Seq::<(K, V)>::empty());
        Some(first.1)
    }

    /// A cursor over the entries, breadth first; the tree stays as it is.
    pub fn iter(&self) -> (iter: Iter<'_, K, V>)
        ensures
            iter.pending() == self.entries(),
    {
        Iter::over(&self.root)
    }

    /// A cursor that consumes the tree and hands out its entries, breadth
    /// first.
    pub fn into_iter(self) -> (iter: IntoIter<K, V>)
        ensures
            iter.pending() == self.entries(),
    {
        IntoIter::over(self.root)
    }

    /// A traversal of nothing yields nothing.
    proof fn lemma_entries_of_empty()
        ensures
            link_level_order(None::<Box<Node<K, V>>>) == Seq::<(K, V)>::empty(),
    {
        lemma_level_order_len(link_nodes(None::<Box<Node<K, V>>>));
        crate::traversal::lemma_link_nodes_len(None::<Box<Node<K, V>>>);
        Node::<K, V>::lemma_link(None);
        assert(link_level_order(None::<Box<Node<K, V>>>).len() == 0);
        assert(link_level_order(None::<Box<Node<K, V>>>) =~= Seq::<(K, V)>::empty());
    }

    /// Cutting a branch off keeps the invariant and takes exactly the
    /// branch's entries out of the map.
    pub proof fn lemma_pruned(tree: Self, key: K)
        requires
            total_order::<K>(),
            tree.wf(),
        ensures
            tree.pruned(key).wf(),
            Node::link_wf(tree.branch(key)),
            tree.pruned(key)@ == tree@.remove_keys(Node::link_map(tree.branch(key)).dom()),
            tree.pruned(key)@.dom().finite(),
            tree.pruned(key)@.len() + Node::link_size(tree.branch(key)) == tree@.len(),
            tree.branch(key) is None ==> tree.pruned(key) == tree,
    {
        Node::lemma_cut(tree.root, key);
        Node::lemma_recounted(Node::link_cut(tree.root, key));
        Node::lemma_map_size(tree.root);
        Node::lemma_map_size(tree.pruned(key).root);
        Node::lemma_cut_nothing(tree.root, key);
    }

    /// Inserting entries one after the other keeps the invariant and does to
    /// the map what inserting them into the map does.
    pub proof fn lemma_refilled(tree: Self, entries: Seq<(K, V)>)
        requires
            total_order::<K>(),
            tree.wf(),
            tree@.len() + entries.len() <= usize::MAX,
        ensures
            tree.refilled(entries).wf(),
            tree.refilled(entries)@ == with_entries(tree@, entries),
            tree.refilled(entries)@.len() <= tree@.len() + entries.len(),
        decreases entries.len(),
    {
        if entries.len() != 0 {
            let next = tree.inserted(entries[0].0, entries[0].1);
            Self::lemma_inserted(tree, entries[0].0, entries[0].1);
            Self::lemma_refilled(next, entries.skip(1));
        }
    }

    /// What `insert` does to the invariant, the map and the number of entries.
    pub proof fn lemma_inserted(tree: Self, key: K, value: V)
        requires
            total_order::<K>(),
            tree.wf(),
            tree@.contains_key(key) || tree@.len() < usize::MAX,
        ensures
            tree.inserted(key, value).wf(),
            tree.inserted(key, value)@ == tree@.insert(key, value),
            tree.inserted(key, value)@.len() == if tree@.contains_key(key) {
                tree@.len()
            } else {
                tree@.len() + 1
            },
    {
        Node::lemma_with_value(tree.root, key, value);
        Node::lemma_map_size(tree.root);
        if !tree@.contains_key(key) {
            Node::lemma_grown(tree.root, key, value);
        }
        Node::lemma_map_size(tree.inserted(key, value).root);
    }

    /// What `remove` does to the invariant and the map: the key goes and
    /// every other entry stays as it was.
    pub proof fn lemma_removed(tree: Self, key: K)
        requires
            total_order::<K>(),
            tree.wf(),
        ensures
            tree.removed(key).wf(),
            tree.removed(key)@ == tree@.remove(key),
    {
        Self::lemma_pruned(tree, key);
        Node::lemma_branch(tree.root, key);
        Node::lemma_map_size(tree.root);
        match tree.branch(key) {
            None => {
                assert(tree@.remove(key) =~= tree@);
            },
            Some(node) => {
                let rest = tree.pruned(key);
                let entries = level_order(seq![*node]).skip(1);
                lemma_level_order_root(*node);
                Node::lemma_unfold(*node);
                Node::lemma_accessors(*node);
                Node::lemma_link(tree.branch(key));
                assert(entries =~= level_order(children(*node)));
                crate::traversal::lemma_children_ordered(*node);
                assert forall|i: int| 0 <= i < entries.len() implies {
                    &&& node.as_map().contains_pair((#[trigger] entries[i]).0, entries[i].1)
                    &&& entries[i].0 != key
                } by {
                    let (k, v) = entries[i];
                    assert(entries.contains((k, v)));
                    lemma_level_order_holds(children(*node), k, v);
                    crate::traversal::lemma_children_hold(*node, k, v);
                }
                Node::lemma_link(tree.branch(key));
                Node::lemma_link(tree.root);
                lemma_level_order_len(children(*node));
                Self::lemma_refilled(rest, entries);
                let last = rest.refilled(entries);
                assert(agreeing(entries));
                let goal = tree@.remove(key);
                assert forall|k: K|
                    (#[trigger] last@.dom().contains(k)) == goal.dom().contains(k) && (
                    last@.dom().contains(k) ==> last@[k] == goal[k]) by {
                    if exists|i: int| 0 <= i < entries.len() && (#[trigger] entries[i]).0 == k {
                        let i = choose|i: int|
                            0 <= i < entries.len() && (#[trigger] entries[i]).0 == k;
                        lemma_with_entries_hit(rest@, entries, i);
                    } else {
                        lemma_with_entries_miss(rest@, entries, k);
                        if node.as_map().contains_key(k) && k != key {
                            let v = node.as_map()[k];
                            crate::traversal::lemma_children_hold(*node, k, v);
                            lemma_level_order_holds(children(*node), k, v);
                            let i = choose|i: int| 0 <= i < entries.len() && entries[i] == (k, v);
                            assert(entries[i].0 == k);
                        }
                    }
                }
                assert(last@ =~= tree@.remove(key));
            },
        }
    }

    /// Whatever inserts and removals are made one after the other, the
    /// invariant holds in the end, with every cached count exact, and the
    /// tree holds what a map would hold after the same changes.
    pub proof fn lemma_edited(tree: Self, edits: Seq<Edit<K, V>>)
        requires
            total_order::<K>(),
            tree.wf(),
            tree@.len() + edits.len() <= usize::MAX,
        ensures
            tree.edited(edits).wf(),
            tree.edited(edits)@ == with_edits(tree@, edits),
            tree.edited(edits)@.len() <= tree@.len() + edits.len(),
        decreases edits.len(),
    {
        if edits.len() != 0 {
            Node::lemma_map_size(tree.root);
            let next = match edits[0] {
                Edit::Insert(key, value) => {
                    Self::lemma_inserted(tree, key, value);
                    tree.inserted(key, value)
                },
                Edit::Remove(key) => {
                    Self::lemma_removed(tree, key);
                    tree.removed(key)
                },
            };
            Node::lemma_map_size(next.root);
            Self::lemma_edited(next, edits.skip(1));
        }
    }

    /// The cached counts are exact: at the node of any key, the count is the
    /// number of entries that a full traversal of the node's subtree yields,
    /// less the node's own.
    pub proof fn lemma_counts_exact(tree: Self, key: K)
        requires
            total_order::<K>(),
            tree.wf(),
        ensures
            tree.branch(key) matches Some(node) ==> node.spec_descendants() == Some(
                (level_order(seq![*node]).len() - 1) as usize,
            ),
    {
        Node::lemma_branch(tree.root, key);
        if let Some(node) = tree.branch(key) {
            Node::lemma_count(*node);
            lemma_level_order_root(*node);
        }
    }

    /// Inserting under one key twice: the second insert finds the first
    /// one's value, which is what it reports as replaced, and leaves its own.
    pub proof fn lemma_insert_twice(tree: Self, key: K, first: V, second: V)
        requires
            total_order::<K>(),
            tree.wf(),
            tree@.contains_key(key) || tree@.len() < usize::MAX,
        ensures
            tree.inserted(key, first).lookup(key) == Some(first),
            tree.inserted(key, first).inserted(key, second).lookup(key) == Some(second),
            tree.inserted(key, first).inserted(key, second)@ == tree@.insert(key, second),
            tree.inserted(key, first).inserted(key, second).wf(),
    {
        Self::lemma_inserted(tree, key, first);
        Self::lemma_inserted(tree.inserted(key, first), key, second);
        assert(tree@.insert(key, first).insert(key, second) =~= tree@.insert(key, second));
    }

    /// After any run of inserts into an empty tree, exactly the keys that
    /// were inserted are present, each with the value it was last given.
    pub proof fn lemma_membership(entries: Seq<(K, V)>, key: K)
        requires
            total_order::<K>(),
            entries.len() <= usize::MAX,
        ensures
            Self::rooted(None).refilled(entries).wf(),
            Self::rooted(None).refilled(entries)@.contains_key(key) <==> mentions(entries, key),
            forall|at: int|
                0 <= at < entries.len() && (#[trigger] entries[at]).0 == key && (forall|j: int|
                    at < j < entries.len() ==> (#[trigger] entries[j]).0 != key)
                    ==> Self::rooted(None).refilled(entries).lookup(key) == Some(entries[at].1),
    {
        let empty = Self::rooted(None);
        Node::<K, V>::lemma_link(empty.root);
        Node::<K, V>::lemma_map_size(empty.root);
        Self::lemma_refilled(empty, entries);
        lemma_with_entries_keys(empty@, entries, key);
        assert forall|at: int|
            0 <= at < entries.len() && (#[trigger] entries[at]).0 == key && (forall|j: int|
                at < j < entries.len() ==> (#[trigger] entries[j]).0 != key) implies empty.refilled(
            entries,
        ).lookup(key) == Some(entries[at].1) by {
            lemma_with_entries_last(empty@, entries, at);
        }
    }

    /// Inserting makes the key present and leaves every other key as it was.
    pub proof fn lemma_insert_touches_one(tree: Self, key: K, value: V, other: K)
        requires
            total_order::<K>(),
            tree.wf(),
            tree@.contains_key(key) || tree@.len() < usize::MAX,
        ensures
            tree.inserted(key, value).lookup(key) == Some(value),
            other != key ==> tree.inserted(key, value).lookup(other) == tree.lookup(other),
    {
        Self::lemma_inserted(tree, key, value);
    }

    /// Removing makes the key absent and leaves every other key as it was.
    pub proof fn lemma_remove_touches_one(tree: Self, key: K, other: K)
        requires
            total_order::<K>(),
            tree.wf(),
        ensures
            tree.removed(key).lookup(key) is None,
            other != key ==> tree.removed(key).lookup(other) == tree.lookup(other),
    {
        Self::lemma_removed(tree, key);
    }

    /// A full traversal yields exactly the entries of the tree, each once:
    /// its keys are the keys present, whatever the order of the inserts that
    /// built the tree.
    pub proof fn lemma_traversal_complete(tree: Self)
        requires
            total_order::<K>(),
            tree.wf(),
        ensures
            forall|key: K, value: V| #[trigger]
                tree.entries().contains((key, value)) <==> tree@.contains_pair(key, value),
            tree.entries().len() == tree@.len(),
            tree.entries().len() <= usize::MAX,
            tree.keys().to_set() == tree@.dom(),
            tree.keys().no_duplicates(),
    {
        Node::lemma_link(tree.root);
        let entries = tree.entries();
        let keys = tree.keys();
        Node::lemma_map_size(tree.root);
        assert forall|key: K, value: V| #[trigger]
            entries.contains((key, value)) <==> tree@.contains_pair(key, value) by {
            crate::traversal::lemma_link_level_order(tree.root, key, value);
        }
        assert(entries.len() == tree@.len()) by {
            if entries.len() > 0 {
                crate::traversal::lemma_link_level_order(tree.root, entries[0].0, entries[0].1);
            } else {
                Self::lemma_entries_of_empty();
                match tree.root {
                    None => {
                        Node::<K, V>::lemma_link(tree.root);
                    },
                    Some(node) => {
                        crate::traversal::lemma_link_level_order(
                            tree.root,
                            node.spec_key(),
                            node.spec_value(),
                        );
                    },
                }
            }
        }
        assert forall|key: K| keys.to_set().contains(key) <==> tree@.dom().contains(key) by {
            if keys.to_set().contains(key) {
                let i = choose|i: int| 0 <= i < keys.len() && keys[i] == key;
                assert(entries.contains((entries[i].0, entries[i].1)));
            }
            if tree@.dom().contains(key) {
                assert(tree@.contains_pair(key, tree@[key]));
                assert(entries.contains((key, tree@[key])));
                let i = choose|i: int| 0 <= i < entries.len() && entries[i] == (key, tree@[key]);
                assert(keys[i] == key);
            }
        }
        assert(keys.to_set() =~= tree@.dom());
        keys.lemma_no_dup_set_cardinality();
    }

    /// The random walk is fair. Every draw on the way from the root to a key
    /// is one index out of as many as the subtree at hand has nodes, and the
    /// draws do not depend on one another, so that every run of them is as
    /// likely as any other. Of these runs, those for which the walk ends at
    /// the key are one in as many as the tree has entries, whichever key it
    /// is.
    pub proof fn lemma_random_is_uniform(tree: Self, key: K)
        requires
            total_order::<K>(),
            tree.wf(),
            tree@.contains_key(key),
        ensures
            tree.walks_to(key).finite(),
            runs_within(tree.drawn(key)).finite(),
            tree.walks_to(key).subset_of(runs_within(tree.drawn(key))),
            tree.walks_to(key).len() * tree@.len() == runs_within(tree.drawn(key)).len(),
    {
        let leading = Node::link_leading(tree.root, key);
        let empty = Seq::<usize>::empty();
        Node::lemma_walk_is_fair(tree.root, key, empty);
        Node::lemma_map_size(tree.root);
        lemma_volume(leading);
        lemma_volume(tree.drawn(key));
        assert(tree.walks_to(key) =~= runs_within(leading)) by {
            assert forall|draws: Seq<usize>|
                tree.walks_to(key).contains(draws) <==> runs_within(leading).contains(draws) by {
                Node::lemma_walk_is_fair(tree.root, key, draws);
            }
        }
        assert forall|draws: Seq<usize>| tree.walks_to(key).contains(draws) implies runs_within(
            tree.drawn(key),
        ).contains(draws) by {
            Node::lemma_walk_within(tree.root, key, draws);
        }
    }

    /// The traversals yield the entries row by row: the root, then the nodes
    /// one step below it from left to right, then those two steps below, and
    /// so on.
    pub proof fn lemma_entries_by_rows(tree: Self)
        ensures
            tree.entries() == by_rows(link_nodes(tree.spec_root())),
    {
        lemma_level_order_by_rows(link_nodes(tree.root));
    }
}

} // verus!
