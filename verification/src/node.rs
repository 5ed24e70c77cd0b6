//! Nodes of the size-annotated search tree, and what is proved of them.
use crate::chance::draw_below;
use crate::counting::{lemma_volume_first, lemma_within_first, proper, volume, within};
use crate::order::{compare, less, lemma_order_laws, total_order, Side};
use rand::rngs::ThreadRng;
use vstd::prelude::*;

verus! {

/// A child slot: an owned subtree, or nothing.
pub type Link<K, V> = Option<Box<Node<K, V>>>;

/// One entry of the tree together with the subtrees below it.
#[derive(Debug)]
pub struct Node<K, V> {
    pub(crate) key: K,
    pub(crate) value: V,
    /// How many nodes lie strictly below this one; `None` while a cut is in
    /// progress somewhere underneath and the number is not known.
    pub(crate) descendants: Option<usize>,
    pub(crate) left: Link<K, V>,
    pub(crate) right: Link<K, V>,
}

/// Where the weighted walk goes from a node, for one index drawn there.
#[derive(Clone, Copy, Debug, PartialEq, Eq, Structural)]
pub enum Turn {
    /// The walk ends: this node's entry is the one selected.
    Stay,
    /// The walk goes on in the left subtree.
    Left,
    /// The walk goes on in the right subtree.
    Right,
}

impl<K: Ord, V> Node<K, V> {
    /// The number of nodes in the subtree rooted here.
    pub closed spec fn size(self) -> nat
        decreases self,
    {
        1 + Self::link_size(self.left) + Self::link_size(self.right)
    }

    /// The number of nodes under a child slot.
    pub closed spec fn link_size(link: Link<K, V>) -> nat
        decreases link,
    {
        match link {
            None => 0,
            Some(node) => node.size(),
        }
    }

    /// The entries of the subtree rooted here, as a map.
    pub closed spec fn as_map(self) -> Map<K, V>
        decreases self,
    {
        Self::link_map(self.left).union_prefer_right(Self::link_map(self.right)).insert(
            self.key,
            self.value,
        )
    }

    /// The entries under a child slot, as a map.
    pub closed spec fn link_map(link: Link<K, V>) -> Map<K, V>
        decreases link,
    {
        match link {
            None => Map::empty(),
            Some(node) => node.as_map(),
        }
    }

    /// Search-tree order: at every node, smaller keys to the left and larger
    /// keys to the right.
    pub closed spec fn ordered(self) -> bool
        decreases self,
    {
        &&& forall|k: K| #[trigger] Self::link_map(self.left).contains_key(k) ==> less(k, self.key)
        &&& forall|k: K| #[trigger]
            Self::link_map(self.right).contains_key(k) ==> less(self.key, k)
        &&& Self::link_ordered(self.left)
        &&& Self::link_ordered(self.right)
    }

    /// Search-tree order under a child slot.
    pub closed spec fn link_ordered(link: Link<K, V>) -> bool
        decreases link,
    {
        match link {
            None => true,
            Some(node) => node.ordered(),
        }
    }

    /// Every cached count in this subtree is known and equals the number of
    /// nodes strictly below its node; the subtree's size fits a `usize`.
    pub closed spec fn counted(self) -> bool
        decreases self,
    {
        &&& self.descendants == Some(
            (Self::link_size(self.left) + Self::link_size(self.right)) as usize,
        )
        &&& self.size() <= usize::MAX
        &&& Self::link_counted(self.left)
        &&& Self::link_counted(self.right)
    }

    /// Every cached count under a child slot is known and exact.
    pub closed spec fn link_counted(link: Link<K, V>) -> bool
        decreases link,
    {
        match link {
            None => true,
            Some(node) => node.counted(),
        }
    }

    /// The invariant that holds between operations.
    pub open spec fn wf(self) -> bool {
        self.ordered() && self.counted()
    }

    /// The invariant under a child slot.
    pub open spec fn link_wf(link: Link<K, V>) -> bool {
        Self::link_ordered(link) && Self::link_counted(link)
    }

    /// The subtree that holds `key` at its root, if the key is there.
    pub closed spec fn branch(self, key: K) -> Link<K, V>
        decreases self,
    {
        if key == self.key {
            Some(Box::new(self))
        } else if less(key, self.key) {
            Self::link_branch(self.left, key)
        } else {
            Self::link_branch(self.right, key)
        }
    }

    /// The subtree under a child slot that holds `key` at its root.
    pub closed spec fn link_branch(link: Link<K, V>, key: K) -> Link<K, V>
        decreases link,
    {
        match link {
            None => None,
            Some(node) => node.branch(key),
        }
    }

    /// The subtree rooted here with the value under `key` replaced by
    /// `value`; nothing else changes, and nothing at all if the key is absent.
    pub closed spec fn with_value(self, key: K, value: V) -> Node<K, V>
        decreases self,
    {
        if key == self.key {
            Node { value, ..self }
        } else if less(key, self.key) {
            Node { left: Self::link_with_value(self.left, key, value), ..self }
        } else {
            Node { right: Self::link_with_value(self.right, key, value), ..self }
        }
    }

    /// A child slot with the value under `key` replaced by `value`.
    pub closed spec fn link_with_value(link: Link<K, V>, key: K, value: V) -> Link<K, V>
        decreases link,
    {
        match link {
            None => None,
            Some(node) => Some(Box::new(node.with_value(key, value))),
        }
    }

    /// A node with one entry and nothing below it.
    pub closed spec fn leaf(key: K, value: V) -> Node<K, V> {
        Node { key, value, descendants: Some(0usize), left: None, right: None }
    }

    /// The subtree rooted here after a key that it lacks has been added: a
    /// new leaf hangs where the descent for `key` runs out, and every count on
    /// the way down to it has gone up by one.
    pub closed spec fn grown(self, key: K, value: V) -> Node<K, V>
        decreases self,
    {
        let bumped = match self.descendants {
            Some(count) => Some((count + 1) as usize),
            None => None,
        };
        if less(key, self.key) {
            Node { descendants: bumped, left: Self::link_grown(self.left, key, value), ..self }
        } else {
            Node { descendants: bumped, right: Self::link_grown(self.right, key, value), ..self }
        }
    }

    /// A child slot after a key that it lacks has been added below it.
    pub closed spec fn link_grown(link: Link<K, V>, key: K, value: V) -> Link<K, V>
        decreases link,
    {
        match link {
            None => Some(Box::new(Self::leaf(key, value))),
            Some(node) => Some(Box::new(node.grown(key, value))),
        }
    }

    /// A child slot after `insert`: the value replaced in place where the key
    /// is present, a new leaf where it is not.
    pub open spec fn link_inserted(link: Link<K, V>, key: K, value: V) -> Link<K, V> {
        if Self::link_map(link).contains_key(key) {
            Self::link_with_value(link, key, value)
        } else {
            Self::link_grown(link, key, value)
        }
    }

    /// What is left of the subtree rooted here once the branch that holds
    /// `key` has been cut off: the slot where that branch hung is empty, and
    /// every node passed on the way to it has its count marked unknown.
    pub closed spec fn cut(self, key: K) -> Link<K, V>
        decreases self,
    {
        if key == self.key {
            None
        } else if less(key, self.key) {
            Some(
                Box::new(
                    Node { descendants: None, left: Self::link_cut(self.left, key), ..self },
                ),
            )
        } else {
            Some(
                Box::new(
                    Node { descendants: None, right: Self::link_cut(self.right, key), ..self },
                ),
            )
        }
    }

    /// What is left under a child slot once the branch that holds `key` has
    /// been cut off.
    pub closed spec fn link_cut(link: Link<K, V>, key: K) -> Link<K, V>
        decreases link,
    {
        match link {
            None => None,
            Some(node) => node.cut(key),
        }
    }

    /// The weaker invariant that holds while a cut is under way: a count that
    /// is known is exact and has nothing unknown below it.
    pub closed spec fn sound(self) -> bool
        decreases self,
    {
        &&& self.size() <= usize::MAX
        &&& match self.descendants {
            Some(count) => {
                &&& count == Self::link_size(self.left) + Self::link_size(self.right)
                &&& Self::link_counted(self.left)
                &&& Self::link_counted(self.right)
            },
            None => Self::link_sound(self.left) && Self::link_sound(self.right),
        }
    }

    /// The weaker invariant under a child slot.
    pub closed spec fn link_sound(link: Link<K, V>) -> bool
        decreases link,
    {
        match link {
            None => true,
            Some(node) => node.sound(),
        }
    }

    /// The subtree rooted here with every unknown count filled in; known
    /// counts, and everything below them, are left alone.
    pub closed spec fn recounted(self) -> Node<K, V>
        decreases self,
    {
        match self.descendants {
            Some(_) => self,
            None => Node {
                descendants: Some(
                    (Self::link_size(self.left) + Self::link_size(self.right)) as usize,
                ),
                left: Self::link_recounted(self.left),
                right: Self::link_recounted(self.right),
                ..self
            },
        }
    }

    /// A child slot with every unknown count below it filled in.
    pub closed spec fn link_recounted(link: Link<K, V>) -> Link<K, V>
        decreases link,
    {
        match link {
            None => None,
            Some(node) => Some(Box::new(node.recounted())),
        }
    }

    /// The entry at which the weighted walk from this node ends when it
    /// meets with the given draws, one at every node it visits; `None` where
    /// the draws are not those of a walk, being too few, too many, or out of
    /// a node's range.
    pub closed spec fn walk(self, draws: Seq<usize>) -> Option<(K, V)>
        decreases self,
    {
        if draws.len() == 0 || draws[0] >= self.size() {
            None
        } else if draws[0] == 0 {
            if draws.len() == 1 {
                Some((self.key, self.value))
            } else {
                None
            }
        } else if draws[0] <= Self::link_size(self.left) {
            Self::link_walk(self.left, draws.skip(1))
        } else {
            Self::link_walk(self.right, draws.skip(1))
        }
    }

    /// The entry at which the walk from under a child slot ends.
    pub closed spec fn link_walk(link: Link<K, V>, draws: Seq<usize>) -> Option<(K, V)>
        decreases link,
    {
        match link {
            None => None,
            Some(node) => node.walk(draws),
        }
    }

    /// The ranges in which the draws of a walk lie that ends at `key`: at
    /// every node above the key's the indices that lead on towards the key,
    /// and at the key's node index 0.
    pub closed spec fn leading(self, key: K) -> Seq<(int, int)>
        decreases self,
    {
        let left = Self::link_size(self.left) as int;
        if key == self.key {
            seq![(0int, 1int)]
        } else if less(key, self.key) {
            seq![(1int, left + 1)] + Self::link_leading(self.left, key)
        } else {
            seq![(left + 1, self.size() as int)] + Self::link_leading(self.right, key)
        }
    }

    /// The ranges in which the draws of a walk from under a child slot lie
    /// that ends at `key`.
    pub closed spec fn link_leading(link: Link<K, V>, key: K) -> Seq<(int, int)>
        decreases link,
    {
        match link {
            None => Seq::empty(),
            Some(node) => node.leading(key),
        }
    }

    /// The ranges from which the draws are made on the way to `key`: at
    /// every node from this one down to the key's, one index out of as many
    /// as the node's subtree has nodes.
    pub closed spec fn drawn(self, key: K) -> Seq<(int, int)>
        decreases self,
    {
        let all = (0int, self.size() as int);
        if key == self.key {
            seq![all]
        } else if less(key, self.key) {
            seq![all] + Self::link_drawn(self.left, key)
        } else {
            seq![all] + Self::link_drawn(self.right, key)
        }
    }

    /// The ranges from which the draws are made on the way to `key` from
    /// under a child slot.
    pub closed spec fn link_drawn(link: Link<K, V>, key: K) -> Seq<(int, int)>
        decreases link,
    {
        match link {
            None => Seq::empty(),
            Some(node) => node.drawn(key),
        }
    }

    /// The left child slot.
    pub closed spec fn spec_left(self) -> Link<K, V> {
        self.left
    }

    /// The right child slot.
    pub closed spec fn spec_right(self) -> Link<K, V> {
        self.right
    }

    /// The key held at this node.
    pub closed spec fn spec_key(self) -> K {
        self.key
    }

    /// The value held at this node.
    pub closed spec fn spec_value(self) -> V {
        self.value
    }

    /// The cached number of nodes strictly below this one, `None` if it is
    /// marked unknown.
    pub closed spec fn spec_descendants(self) -> Option<usize> {
        self.descendants
    }

    /// A leaf holding one entry.
    pub fn new(key: K, value: V) -> (node: Self)
        ensures
            node.wf(),
            node.as_map() == Map::<K, V>::empty().insert(key, value),
            node.size() == 1,
            node.spec_key() == key,
            node.spec_value() == value,
            node.spec_descendants() == Some(0usize),
    {
        let node = Node { key, value, descendants: Some(0), left: None, right: None };
        assert(node.as_map() =~= Map::<K, V>::empty().insert(key, value));
        node
    }

    /// The key held at this node.
    pub fn key(&self) -> (key: &K)
        ensures
            *key == self.spec_key(),
    {
        &self.key
    }

    /// The value held at this node.
    pub fn value(&self) -> (value: &V)
        ensures
            *value == self.spec_value(),
    {
        &self.value
    }

    /// The cached number of nodes strictly below this one.
    pub fn descendants(&self) -> (count: Option<usize>)
        ensures
            count == self.spec_descendants(),
            self.counted() ==> count == Some((self.size() - 1) as usize),
    {
        self.descendants
    }

    /// Looks `key` up below a child slot by the usual descent.
    pub(crate) fn find<'a>(link: &'a Link<K, V>, key: &K) -> (found: Option<&'a Node<K, V>>)
        requires
            total_order::<K>(),
            Self::link_ordered(*link),
        ensures
            found matches Some(node) ==> Self::link_branch(*link, *key) == Some(Box::new(*node))
                && node.spec_key() == *key,
            found is None ==> Self::link_branch(*link, *key) is None,
    {
        let mut current = link;
        loop
            invariant
                total_order::<K>(),
                Self::link_ordered(*current),
                Self::link_branch(*current, *key) == Self::link_branch(*link, *key),
            decreases *current,
        {
            match current {
                None => {
                    return None;
                },
                Some(node) => {
                    match compare(key, &node.key) {
                        Side::Same => {
                            return Some(&**node);
                        },
                        Side::Below => {
                            current = &node.left;
                        },
                        Side::Above => {
                            proof {
                                lemma_order_laws::<K>();
                            }
                            current = &node.right;
                        },
                    }
                },
            }
        }
    }

    /// Looks `key` up below a child slot and lends out its value for writing.
    pub(crate) fn find_mut<'a>(link: &'a mut Link<K, V>, key: &K) -> (found: Option<&'a mut V>)
        requires
            total_order::<K>(),
            Self::link_ordered(*old(link)),
        ensures
            match found {
                Some(value) => {
                    &&& Self::link_branch(*old(link), *key) matches Some(node)
                    &&& node.spec_value() == *value
                    &&& *final(link) == Self::link_with_value(*old(link), *key, *final(value))
                },
                None => {
                    &&& Self::link_branch(*old(link), *key) is None
                    &&& *final(link) == *old(link)
                },
            },
        decreases *old(link),
    {
        match link {
            None => None,
            Some(node) => {
                match compare(key, &node.key) {
                    Side::Same => Some(&mut node.value),
                    Side::Below => Self::find_mut(&mut node.left, key),
                    Side::Above => {
                        proof {
                            lemma_order_laws::<K>();
                        }
                        Self::find_mut(&mut node.right, key)
                    },
                }
            },
        }
    }

    /// Adds a key that is not yet below `link`, as a new leaf at the end of
    /// the descent, and counts it in at every node passed.
    pub(crate) fn insert_aux(link: &mut Link<K, V>, key: K, value: V)
        requires
            total_order::<K>(),
            Self::link_wf(*old(link)),
            !Self::link_map(*old(link)).contains_key(key),
            Self::link_size(*old(link)) < usize::MAX,
        ensures
            *final(link) == Self::link_grown(*old(link), key, value),
        decreases *old(link),
    {
        match link {
            None => {
                *link = Some(Box::new(Node::new(key, value)));
            },
            Some(node) => {
                proof {
                    lemma_order_laws::<K>();
                }
                let count = node.descendants.unwrap();
                node.descendants = Some(count + 1);
                match compare(&key, &node.key) {
                    Side::Below => Self::insert_aux(&mut node.left, key, value),
                    Side::Above => Self::insert_aux(&mut node.right, key, value),
                    Side::Same => {
                        proof {
                            assert(false);
                        }
                    },
                }
            },
        }
    }

    /// The number of nodes in the left subtree, read off the child's count.
    fn left_children(&self) -> (count: usize)
        requires
            Self::link_counted(self.left),
        ensures
            count == Self::link_size(self.left),
    {
        match &self.left {
            Some(child) => 1 + child.descendants.unwrap(),
            None => 0,
        }
    }

    /// The number of nodes in the right subtree, read off the child's count.
    fn right_children(&self) -> (count: usize)
        requires
            Self::link_counted(self.right),
        ensures
            count == Self::link_size(self.right),
    {
        match &self.right {
            Some(child) => 1 + child.descendants.unwrap(),
            None => 0,
        }
    }

    /// Fills in the counts that are unknown, each from its children's once
    /// those are settled, and returns this node's count.
    pub(crate) fn calc_descendants(&mut self) -> (count: usize)
        requires
            old(self).sound(),
        ensures
            *final(self) == old(self).recounted(),
            count == old(self).size() - 1,
        decreases *old(self),
    {
        proof {
            Self::lemma_recounted(Some(Box::new(*self)));
        }
        if self.descendants.is_none() {
            match &mut self.left {
                Some(child) => {
                    child.calc_descendants();
                },
                None => {},
            }
            match &mut self.right {
                Some(child) => {
                    child.calc_descendants();
                },
                None => {},
            }
            proof {
                Self::lemma_recounted(old(self).left);
                Self::lemma_recounted(old(self).right);
            }
            self.descendants = Some(self.left_children() + self.right_children());
        }
        self.descendants.unwrap()
    }

    /// Cuts the branch that holds `key` out from under `link` and hands it
    /// over, marking the count of every node passed on the way as unknown.
    pub(crate) fn detach(link: &mut Link<K, V>, key: &K) -> (branch: Link<K, V>)
        requires
            total_order::<K>(),
            Self::link_ordered(*old(link)),
        ensures
            branch == Self::link_branch(*old(link), *key),
            *final(link) == Self::link_cut(*old(link), *key),
        decreases *old(link),
    {
        match link.take() {
            None => None,
            Some(mut node) => {
                proof {
                    lemma_order_laws::<K>();
                }
                match compare(key, &node.key) {
                    Side::Same => Some(node),
                    Side::Below => {
                        node.descendants = None;
                        let branch = Self::detach(&mut node.left, key);
                        *link = Some(node);
                        branch
                    },
                    Side::Above => {
                        node.descendants = None;
                        let branch = Self::detach(&mut node.right, key);
                        *link = Some(node);
                        branch
                    },
                }
            },
        }
    }

    /// Filling in the unknown counts restores the full invariant and changes
    /// nothing else.
    pub proof fn lemma_recounted(link: Link<K, V>)
        requires
            Self::link_sound(link),
        ensures
            Self::link_counted(Self::link_recounted(link)),
            Self::link_size(Self::link_recounted(link)) == Self::link_size(link),
            Self::link_map(Self::link_recounted(link)) == Self::link_map(link),
            Self::link_ordered(link) ==> Self::link_ordered(Self::link_recounted(link)),
            Self::link_counted(link) ==> Self::link_recounted(link) == link,
        decreases link,
    {
        match link {
            None => {},
            Some(node) => {
                if node.descendants is None {
                    Self::lemma_recounted(node.left);
                    Self::lemma_recounted(node.right);
                }
            },
        }
    }

    /// The full invariant on counts implies the weaker one.
    pub proof fn lemma_counted_is_sound(link: Link<K, V>)
        requires
            Self::link_counted(link),
        ensures
            Self::link_sound(link),
        decreases link,
    {
        match link {
            None => {},
            Some(node) => {
                Self::lemma_counted_is_sound(node.left);
                Self::lemma_counted_is_sound(node.right);
            },
        }
    }

    /// Cutting a branch off leaves an ordered tree whose known counts are
    /// still exact, and takes exactly the branch's entries out of the map.
    pub proof fn lemma_cut(link: Link<K, V>, key: K)
        requires
            total_order::<K>(),
            Self::link_wf(link),
        ensures
            Self::link_sound(Self::link_cut(link, key)),
            Self::link_ordered(Self::link_cut(link, key)),
            Self::link_size(Self::link_cut(link, key)) + Self::link_size(
                Self::link_branch(link, key),
            ) == Self::link_size(link),
            Self::link_map(Self::link_cut(link, key)) == Self::link_map(link).remove_keys(
                Self::link_map(Self::link_branch(link, key)).dom(),
            ),
            Self::link_wf(Self::link_branch(link, key)),
        decreases link,
    {
        match link {
            None => {
                assert(Self::link_map(link).remove_keys(Set::<K>::empty()) =~= Self::link_map(link));
            },
            Some(node) => {
                lemma_order_laws::<K>();
                Self::lemma_children_apart(*node);
                Self::lemma_counted_is_sound(node.left);
                Self::lemma_counted_is_sound(node.right);
                let gone = Self::link_map(Self::link_branch(link, key)).dom();
                if key == node.key {
                    assert(Self::link_map(link).remove_keys(gone) =~= Map::<K, V>::empty());
                } else if less(key, node.key) {
                    Self::lemma_cut(node.left, key);
                    Self::lemma_branch(node.left, key);
                    assert(Self::link_map(node.cut(key)) =~= Self::link_map(link).remove_keys(gone));
                } else {
                    Self::lemma_cut(node.right, key);
                    Self::lemma_branch(node.right, key);
                    assert(Self::link_map(node.cut(key)) =~= Self::link_map(link).remove_keys(gone));
                }
            },
        }
    }

    /// Decides one step of the weighted walk. Of the `1 + descendants`
    /// indices that can be drawn at a node, index 0 selects the node itself,
    /// the next `size(left)` lead into the left subtree and the remaining
    /// `size(right)` into the right one, so that each subtree is entered with
    /// a weight equal to its size.
    pub fn turn(&self, index: usize) -> (turn: Turn)
        requires
            self.counted(),
            index < self.size(),
        ensures
            turn == Turn::Stay <==> index == 0,
            turn == Turn::Left <==> 1 <= index <= Self::link_size(self.spec_left()),
            turn == Turn::Right <==> Self::link_size(self.spec_left()) < index,
            turn == Turn::Left ==> self.spec_left() is Some,
            turn == Turn::Right ==> self.spec_right() is Some,
    {
        if index == 0 {
            Turn::Stay
        } else if index <= self.left_children() {
            Turn::Left
        } else {
            Turn::Right
        }
    }

    /// Selects an entry of this subtree at random by the weighted walk: at
    /// each node one index is drawn from `[0, descendants]` and [`Node::turn`]
    /// says where it leads. What comes back is the entry at which the walk
    /// ends for the draws that were made; every entry of the subtree can come
    /// back, and nothing else can.
    pub fn random<'a>(&'a self, rng: &mut ThreadRng) -> (picked: (&'a K, &'a V))
        requires
            total_order::<K>(),
            self.wf(),
        ensures
            exists|draws: Seq<usize>| #[trigger] self.walk(draws) == Some((*picked.0, *picked.1)),
            self.as_map().contains_pair(*picked.0, *picked.1),
        decreases self,
    {
        let index = draw_below(rng, self.descendants.unwrap() + 1);
        let picked = match self.turn(index) {
            Turn::Stay => {
                proof {
                    let draws = seq![index];
                    assert(self.walk(draws) == Some((self.key, self.value)));
                }
                (&self.key, &self.value)
            },
            Turn::Left => {
                let below = self.left.as_ref().unwrap().random(rng);
                proof {
                    let child = self.left.unwrap();
                    let rest = choose|draws: Seq<usize>| #[trigger]
                        child.walk(draws) == Some((*below.0, *below.1));
                    let draws = seq![index] + rest;
                    assert(draws.skip(1) =~= rest);
                    assert(self.walk(draws) == Some((*below.0, *below.1)));
                }
                below
            },
            Turn::Right => {
                let below = self.right.as_ref().unwrap().random(rng);
                proof {
                    let child = self.right.unwrap();
                    let rest = choose|draws: Seq<usize>| #[trigger]
                        child.walk(draws) == Some((*below.0, *below.1));
                    let draws = seq![index] + rest;
                    assert(draws.skip(1) =~= rest);
                    assert(self.walk(draws) == Some((*below.0, *below.1)));
                }
                below
            },
        };
        proof {
            let draws = choose|draws: Seq<usize>| #[trigger]
                self.walk(draws) == Some((*picked.0, *picked.1));
            Self::lemma_walk_lands(Some(Box::new(*self)), draws);
        }
        picked
    }

    /// A walk ends at an entry of the subtree that it started in.
    pub proof fn lemma_walk_lands(link: Link<K, V>, draws: Seq<usize>)
        requires
            total_order::<K>(),
            Self::link_ordered(link),
        ensures
            Self::link_walk(link, draws) matches Some(entry) ==> Self::link_map(
                link,
            ).contains_pair(entry.0, entry.1),
        decreases link,
    {
        match link {
            None => {},
            Some(node) => {
                Self::lemma_unfold(*node);
                Self::lemma_walk_lands(node.left, draws.skip(1));
                Self::lemma_walk_lands(node.right, draws.skip(1));
            },
        }
    }

    /// The draws that lead to a key are among those that can be made on the
    /// way there.
    pub proof fn lemma_walk_within(link: Link<K, V>, key: K, draws: Seq<usize>)
        requires
            total_order::<K>(),
            Self::link_wf(link),
            Self::link_map(link).contains_key(key),
            within(draws, Self::link_leading(link, key)),
        ensures
            within(draws, Self::link_drawn(link, key)),
        decreases link,
    {
        match link {
            None => {},
            Some(node) => {
                lemma_order_laws::<K>();
                Self::lemma_unfold(*node);
                Self::lemma_children_apart(*node);
                let left = Self::link_size(node.left) as int;
                let size = node.size() as int;
                let after = draws.skip(1);
                let none = Seq::<(int, int)>::empty();
                if key == node.key {
                    assert(node.leading(key) =~= seq![(0int, 1int)] + none);
                    assert(node.drawn(key) =~= seq![(0int, size)] + none);
                    lemma_within_first(draws, (0int, 1int), none);
                    lemma_within_first(draws, (0int, size), none);
                } else if less(key, node.key) {
                    lemma_within_first(draws, (1int, left + 1), Self::link_leading(node.left, key));
                    Self::lemma_walk_within(node.left, key, after);
                    lemma_within_first(draws, (0int, size), Self::link_drawn(node.left, key));
                } else {
                    lemma_within_first(
                        draws,
                        (left + 1, size),
                        Self::link_leading(node.right, key),
                    );
                    Self::lemma_walk_within(node.right, key, after);
                    lemma_within_first(draws, (0int, size), Self::link_drawn(node.right, key));
                }
            },
        }
    }

    /// The walks that end at a key of the subtree are those whose draws lie
    /// in the ranges that lead to the key. Of all the runs of draws that can
    /// be made on the way there, these are one in as many as the subtree has
    /// nodes, whichever key it is.
    pub proof fn lemma_walk_is_fair(link: Link<K, V>, key: K, draws: Seq<usize>)
        requires
            total_order::<K>(),
            Self::link_wf(link),
            Self::link_map(link).contains_key(key),
        ensures
            Self::link_walk(link, draws) == Some((key, Self::link_map(link)[key])) <==> within(
                draws,
                Self::link_leading(link, key),
            ),
            proper(Self::link_leading(link, key)),
            proper(Self::link_drawn(link, key)),
            volume(Self::link_leading(link, key)) * Self::link_size(link) == volume(
                Self::link_drawn(link, key),
            ),
        decreases link,
    {
        match link {
            None => {},
            Some(node) => {
                lemma_order_laws::<K>();
                Self::lemma_unfold(*node);
                Self::lemma_children_apart(*node);
                let left = Self::link_size(node.left) as int;
                let size = node.size() as int;
                let after = draws.skip(1);
                Self::lemma_walk_lands(node.left, after);
                Self::lemma_walk_lands(node.right, after);
                if key == node.key {
                    let ending = seq![(0int, 1int)];
                    assert(ending =~= seq![(0int, 1int)] + Seq::<(int, int)>::empty());
                    lemma_within_first(draws, (0int, 1int), Seq::empty());
                    lemma_volume_first((0int, 1int), Seq::empty());
                    lemma_volume_first((0int, size), Seq::empty());
                    assert(seq![(0int, size)] =~= seq![(0int, size)] + Seq::<(int, int)>::empty());
                    assert(volume(Seq::<(int, int)>::empty()) == 1);
                    assert(within(after, Seq::<(int, int)>::empty()) <==> after.len() == 0);
                    assert(node.leading(key) =~= seq![(0int, 1int)] + Seq::<(int, int)>::empty());
                    assert(node.drawn(key) =~= seq![(0int, size)] + Seq::<(int, int)>::empty());
                    let unit = volume(Seq::<(int, int)>::empty()) as int;
                    assert((size - 0) * unit == size) by (nonlinear_arith)
                        requires
                            unit == 1,
                    ;
                    assert(volume(node.leading(key)) == 1);
                    assert(volume(node.drawn(key)) == size);
                    let ends = volume(node.leading(key)) as int;
                    assert(ends * size == size) by (nonlinear_arith)
                        requires
                            ends == 1,
                    ;
                } else if less(key, node.key) {
                    let first = (1int, left + 1);
                    Self::lemma_walk_is_fair(node.left, key, after);
                    lemma_within_first(draws, first, Self::link_leading(node.left, key));
                    lemma_volume_first(first, Self::link_leading(node.left, key));
                    lemma_volume_first((0int, size), Self::link_drawn(node.left, key));
                    let ways = volume(Self::link_leading(node.left, key)) as int;
                    let runs = volume(Self::link_drawn(node.left, key)) as int;
                    assert((left * ways) * size == size * runs) by (nonlinear_arith)
                        requires
                            ways * left == runs,
                    ;
                    assert(volume(node.leading(key)) == left * ways);
                    assert(volume(node.drawn(key)) == size * runs);
                    assert(volume(node.leading(key)) * size == volume(node.drawn(key)));
                    assert(proper(node.leading(key))) by {
                        let ranges = node.leading(key);
                        let rest = Self::link_leading(node.left, key);
                        assert forall|j: int| 0 <= j < ranges.len() implies 0 <= (
                        #[trigger] ranges[j]).0 <= ranges[j].1 <= usize::MAX + 1 by {
                            if j > 0 {
                                assert(ranges[j] == rest[j - 1]);
                            }
                        }
                    }
                    assert(proper(node.drawn(key))) by {
                        let ranges = node.drawn(key);
                        let rest = Self::link_drawn(node.left, key);
                        assert forall|j: int| 0 <= j < ranges.len() implies 0 <= (
                        #[trigger] ranges[j]).0 <= ranges[j].1 <= usize::MAX + 1 by {
                            if j > 0 {
                                assert(ranges[j] == rest[j - 1]);
                            }
                        }
                    }
                } else {
                    let right = Self::link_size(node.right) as int;
                    let first = (left + 1, size);
                    Self::lemma_walk_is_fair(node.right, key, after);
                    lemma_within_first(draws, first, Self::link_leading(node.right, key));
                    lemma_volume_first(first, Self::link_leading(node.right, key));
                    lemma_volume_first((0int, size), Self::link_drawn(node.right, key));
                    let ways = volume(Self::link_leading(node.right, key)) as int;
                    let runs = volume(Self::link_drawn(node.right, key)) as int;
                    assert((right * ways) * size == size * runs) by (nonlinear_arith)
                        requires
                            ways * right == runs,
                    ;
                    assert(volume(node.leading(key)) == right * ways);
                    assert(volume(node.drawn(key)) == size * runs);
                    assert(volume(node.leading(key)) * size == volume(node.drawn(key)));
                    assert(proper(node.leading(key))) by {
                        let ranges = node.leading(key);
                        let rest = Self::link_leading(node.right, key);
                        assert forall|j: int| 0 <= j < ranges.len() implies 0 <= (
                        #[trigger] ranges[j]).0 <= ranges[j].1 <= usize::MAX + 1 by {
                            if j > 0 {
                                assert(ranges[j] == rest[j - 1]);
                            }
                        }
                    }
                    assert(proper(node.drawn(key))) by {
                        let ranges = node.drawn(key);
                        let rest = Self::link_drawn(node.right, key);
                        assert forall|j: int| 0 <= j < ranges.len() implies 0 <= (
                        #[trigger] ranges[j]).0 <= ranges[j].1 <= usize::MAX + 1 by {
                            if j > 0 {
                                assert(ranges[j] == rest[j - 1]);
                            }
                        }
                    }
                }
            },
        }
    }

    /// What the accessors read are the fields.
    pub(crate) proof fn lemma_accessors(node: Node<K, V>)
        ensures
            node.spec_key() == node.key,
            node.spec_value() == node.value,
            node.spec_descendants() == node.descendants,
            node.spec_left() == node.left,
            node.spec_right() == node.right,
    {
    }

    /// Neither subtree of an ordered node holds the node's own key.
    pub(crate) proof fn lemma_apart(node: Node<K, V>)
        requires
            total_order::<K>(),
            node.ordered(),
        ensures
            !Self::link_map(node.left).contains_key(node.key),
            !Self::link_map(node.right).contains_key(node.key),
    {
        Self::lemma_children_apart(node);
    }

    /// Where the key is absent, cutting marks the counts along the descent
    /// and filling them in again gives back the subtree as it was.
    pub proof fn lemma_cut_nothing(link: Link<K, V>, key: K)
        requires
            total_order::<K>(),
            Self::link_wf(link),
        ensures
            Self::link_branch(link, key) is None ==> Self::link_recounted(
                Self::link_cut(link, key),
            ) == link,
        decreases link,
    {
        match link {
            None => {},
            Some(node) => {
                lemma_order_laws::<K>();
                Self::lemma_counted_is_sound(node.left);
                Self::lemma_counted_is_sound(node.right);
                Self::lemma_recounted(node.left);
                Self::lemma_recounted(node.right);
                if Self::link_branch(link, key) is None {
                    if less(key, node.key) {
                        Self::lemma_cut_nothing(node.left, key);
                        Self::lemma_cut(node.left, key);
                    } else {
                        Self::lemma_cut_nothing(node.right, key);
                        Self::lemma_cut(node.right, key);
                    }
                    let after = Self::link_recounted(Self::link_cut(link, key));
                    assert(after matches Some(same) && *same == *node);
                }
            },
        }
    }

    /// Under the invariant a node's cached count is the size of its subtree
    /// less one, the node itself.
    pub proof fn lemma_count(node: Node<K, V>)
        requires
            node.counted(),
        ensures
            node.spec_descendants() == Some((node.size() - 1) as usize),
            1 <= node.size() <= usize::MAX,
    {
    }

    /// How a walk from under a child slot reads on an empty and on a filled
    /// slot.
    pub(crate) proof fn lemma_link_walk(link: Link<K, V>, draws: Seq<usize>)
        ensures
            link matches Some(node) ==> Self::link_walk(link, draws) == node.walk(draws),
            link is None ==> Self::link_walk(link, draws) is None,
    {
    }

    /// A subtree has one node more than its two subtrees together.
    pub(crate) proof fn lemma_size(node: Node<K, V>)
        ensures
            node.size() == 1 + Self::link_size(node.left) + Self::link_size(node.right),
    {
    }

    /// In an ordered node the map is the node's own entry together with the
    /// entries of its two subtrees, which are ordered in turn.
    pub(crate) proof fn lemma_unfold(node: Node<K, V>)
        requires
            total_order::<K>(),
            node.ordered(),
        ensures
            Self::link_ordered(node.left),
            Self::link_ordered(node.right),
            node.size() == 1 + Self::link_size(node.left) + Self::link_size(node.right),
            node.as_map().contains_pair(node.key, node.value),
            forall|k: K, v: V| #[trigger]
                node.as_map().contains_pair(k, v) <==> (k == node.key && v == node.value)
                    || Self::link_map(node.left).contains_pair(k, v) || Self::link_map(
                    node.right,
                ).contains_pair(k, v),
    {
        Self::lemma_children_apart(node);
    }

    /// How the per-slot functions read on an empty and on a filled slot.
    pub(crate) proof fn lemma_link(link: Link<K, V>)
        ensures
            link matches Some(node) ==> {
                &&& Self::link_size(link) == node.size()
                &&& Self::link_map(link) == node.as_map()
                &&& Self::link_ordered(link) == node.ordered()
                &&& Self::link_counted(link) == node.counted()
                &&& Self::link_sound(link) == node.sound()
                &&& Self::link_recounted(link) == Some(Box::new(node.recounted()))
            },
            link is None ==> {
                &&& Self::link_size(link) == 0
                &&& Self::link_map(link) == Map::<K, V>::empty()
                &&& Self::link_ordered(link)
                &&& Self::link_counted(link)
                &&& Self::link_sound(link)
                &&& Self::link_recounted(link) is None
            },
            Self::link_counted(link) ==> Self::link_size(link) <= usize::MAX,
    {
    }

    /// The map under a subtree is finite and has as many entries as the
    /// subtree has nodes.
    pub proof fn lemma_map_size(link: Link<K, V>)
        requires
            total_order::<K>(),
            Self::link_ordered(link),
        ensures
            Self::link_map(link).dom().finite(),
            Self::link_map(link).len() == Self::link_size(link),
        decreases link,
    {
        match link {
            None => {
                assert(Self::link_map(link).dom() =~= Set::<K>::empty());
            },
            Some(node) => {
                Self::lemma_map_size(node.left);
                Self::lemma_map_size(node.right);
                lemma_order_laws::<K>();
                let l = Self::link_map(node.left);
                let r = Self::link_map(node.right);
                assert(l.dom().disjoint(r.dom()));
                vstd::map_lib::lemma_disjoint_union_size(l, r);
                vstd::map_lib::lemma_union_dom(l, r);
                assert(!l.union_prefer_right(r).contains_key(node.key));
            },
        }
    }

    /// In an ordered node the two subtrees share no key, and neither holds
    /// the node's own.
    proof fn lemma_children_apart(node: Node<K, V>)
        requires
            total_order::<K>(),
            node.ordered(),
        ensures
            !Self::link_map(node.left).contains_key(node.key),
            !Self::link_map(node.right).contains_key(node.key),
            forall|k: K| #[trigger]
                Self::link_map(node.left).contains_key(k) ==> !Self::link_map(
                    node.right,
                ).contains_key(k),
            forall|k: K| #[trigger]
                Self::link_map(node.right).contains_key(k) ==> !Self::link_map(
                    node.left,
                ).contains_key(k),
    {
        lemma_order_laws::<K>();
    }

    /// What the subtree found by descent has to do with the map: it is there
    /// exactly when the key is, and it holds the key's value at its root.
    pub proof fn lemma_branch(link: Link<K, V>, key: K)
        requires
            total_order::<K>(),
            Self::link_ordered(link),
        ensures
            match Self::link_branch(link, key) {
                Some(node) => {
                    &&& node.spec_key() == key
                    &&& node.ordered()
                    &&& Self::link_counted(link) ==> node.counted()
                    &&& Self::link_map(link).contains_key(key)
                    &&& Self::link_map(link)[key] == node.spec_value()
                    &&& node.as_map().submap_of(Self::link_map(link))
                },
                None => !Self::link_map(link).contains_key(key),
            },
        decreases link,
    {
        match link {
            None => {},
            Some(node) => {
                lemma_order_laws::<K>();
                Self::lemma_branch(node.left, key);
                Self::lemma_branch(node.right, key);
                Self::lemma_children_apart(*node);
                if key != node.key {
                    if let Some(found) = Self::link_branch(link, key) {
                        assert forall|k: K| #[trigger] found.as_map().contains_key(k) implies {
                            &&& node.as_map().contains_key(k)
                            &&& node.as_map()[k] == found.as_map()[k]
                        } by {
                            if less(key, node.key) {
                                assert(Self::link_map(node.left).contains_key(k));
                            } else {
                                assert(Self::link_map(node.right).contains_key(k));
                            }
                        }
                    }
                }
            },
        }
    }

    /// Replacing a value in place keeps the invariant and the shape, and
    /// changes the map at that key only.
    pub proof fn lemma_with_value(link: Link<K, V>, key: K, value: V)
        requires
            total_order::<K>(),
            Self::link_ordered(link),
        ensures
            Self::link_ordered(Self::link_with_value(link, key, value)),
            Self::link_counted(link) ==> Self::link_counted(Self::link_with_value(link, key, value)),
            Self::link_size(Self::link_with_value(link, key, value)) == Self::link_size(link),
            Self::link_map(Self::link_with_value(link, key, value)) == if Self::link_map(
                link,
            ).contains_key(key) {
                Self::link_map(link).insert(key, value)
            } else {
                Self::link_map(link)
            },
        decreases link,
    {
        match link {
            None => {},
            Some(node) => {
                lemma_order_laws::<K>();
                Self::lemma_with_value(node.left, key, value);
                Self::lemma_with_value(node.right, key, value);
                let after = node.with_value(key, value);
                assert(after.as_map() =~= if node.as_map().contains_key(key) {
                    node.as_map().insert(key, value)
                } else {
                    node.as_map()
                });
            },
        }
    }

    /// Adding a new key keeps the invariant, adds one entry to the map and one
    /// node to the subtree.
    pub proof fn lemma_grown(link: Link<K, V>, key: K, value: V)
        requires
            total_order::<K>(),
            Self::link_wf(link),
            !Self::link_map(link).contains_key(key),
            Self::link_size(link) < usize::MAX,
        ensures
            Self::link_wf(Self::link_grown(link, key, value)),
            Self::link_size(Self::link_grown(link, key, value)) == Self::link_size(link) + 1,
            Self::link_map(Self::link_grown(link, key, value)) == Self::link_map(link).insert(
                key,
                value,
            ),
        decreases link,
    {
        match link {
            None => {
                assert(Self::leaf(key, value).as_map() =~= Map::<K, V>::empty().insert(key, value));
            },
            Some(node) => {
                lemma_order_laws::<K>();
                if less(key, node.key) {
                    Self::lemma_grown(node.left, key, value);
                } else {
                    Self::lemma_grown(node.right, key, value);
                }
                assert(node.grown(key, value).as_map() =~= node.as_map().insert(key, value));
            },
        }
    }
}

} // verus!
