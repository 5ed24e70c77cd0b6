//! Breadth-first traversal of a subtree: the order it visits entries in, and
//! the two cursors that produce it one entry at a time.
use crate::node::{Link, Node};
use crate::order::total_order;
use std::collections::VecDeque;
use vstd::prelude::*;
use vstd::std_specs::iter::IteratorSpecImpl;

verus! {

/// The node under a child slot, as a sequence of at most one.
pub closed spec fn link_nodes<K: Ord, V>(link: Link<K, V>) -> Seq<Node<K, V>> {
    match link {
        None => Seq::empty(),
        Some(node) => seq![*node],
    }
}

/// The nodes directly below `node`, left before right.
pub closed spec fn children<K: Ord, V>(node: Node<K, V>) -> Seq<Node<K, V>> {
    link_nodes(node.left) + link_nodes(node.right)
}

/// The number of nodes in all the subtrees of a queue together.
pub closed spec fn forest_size<K: Ord, V>(queue: Seq<Node<K, V>>) -> nat
    decreases queue.len(),
{
    if queue.len() == 0 {
        0
    } else {
        queue.first().size() + forest_size(queue.skip(1))
    }
}

/// The entries in the order in which a breadth-first walk visits them when it
/// starts from the subtrees in `queue`: the front subtree's root comes first,
/// its children go to the back of the queue, and so on until the queue is
/// empty. From a single root this is the tree level by level, each level from
/// left to right.
pub closed spec fn level_order<K: Ord, V>(queue: Seq<Node<K, V>>) -> Seq<(K, V)>
    decreases forest_size(queue),
    via level_order_decreases::<K, V>
{
    if queue.len() == 0 {
        Seq::empty()
    } else {
        let head = queue.first();
        seq![(head.key, head.value)] + level_order(queue.skip(1) + children(head))
    }
}

/// Every step of the walk leaves a smaller forest to walk.
#[via_fn]
proof fn level_order_decreases<K: Ord, V>(queue: Seq<Node<K, V>>) {
    if queue.len() != 0 {
        lemma_step_size(queue);
    }
}

/// The entries of the subtree under `link` in breadth-first order.
pub open spec fn link_level_order<K: Ord, V>(link: Link<K, V>) -> Seq<(K, V)> {
    level_order(link_nodes(link))
}

/// One of the subtrees in `queue` holds the entry `(key, value)`.
pub closed spec fn forest_holds<K: Ord, V>(queue: Seq<Node<K, V>>, key: K, value: V) -> bool {
    exists|i: int| 0 <= i < queue.len() && (#[trigger] queue[i]).as_map().contains_pair(key, value)
}

/// Every subtree in `queue` is in search-tree order.
pub closed spec fn forest_ordered<K: Ord, V>(queue: Seq<Node<K, V>>) -> bool {
    forall|i: int| 0 <= i < queue.len() ==> (#[trigger] queue[i]).ordered()
}

/// The size of two queues joined is the sum of their sizes.
proof fn lemma_forest_size_add<K: Ord, V>(a: Seq<Node<K, V>>, b: Seq<Node<K, V>>)
    ensures
        forest_size(a + b) == forest_size(a) + forest_size(b),
    decreases a.len(),
{
    if a.len() == 0 {
        assert(a + b =~= b);
    } else {
        assert((a + b).skip(1) =~= a.skip(1) + b);
        lemma_forest_size_add(a.skip(1), b);
    }
}

/// The children's subtrees hold all the nodes of a subtree but its root.
proof fn lemma_children_size<K: Ord, V>(node: Node<K, V>)
    ensures
        forest_size(children(node)) + 1 == node.size(),
{
    Node::lemma_link(node.left);
    Node::lemma_link(node.right);
    Node::lemma_size(node);
    lemma_link_nodes_size(node.left);
    lemma_link_nodes_size(node.right);
    lemma_forest_size_add(link_nodes(node.left), link_nodes(node.right));
}

/// A child slot as a queue has the size of the subtree under it.
proof fn lemma_link_nodes_size<K: Ord, V>(link: Link<K, V>)
    ensures
        forest_size(link_nodes(link)) == Node::link_size(link),
{
    Node::lemma_link(link);
    match link {
        None => {},
        Some(node) => {
            let q = seq![*node];
            assert(q.skip(1) =~= Seq::<Node<K, V>>::empty());
            assert(forest_size(q.skip(1)) == 0);
        },
    }
}

/// One step of the walk takes exactly one node out of the queue's forest.
proof fn lemma_step_size<K: Ord, V>(queue: Seq<Node<K, V>>)
    requires
        queue.len() > 0,
    ensures
        forest_size(queue.skip(1) + children(queue.first())) + 1 == forest_size(queue),
{
    lemma_forest_size_add(queue.skip(1), children(queue.first()));
    lemma_children_size(queue.first());
}

/// The walk visits as many entries as the queue's forest has nodes.
pub proof fn lemma_level_order_len<K: Ord, V>(queue: Seq<Node<K, V>>)
    ensures
        level_order(queue).len() == forest_size(queue),
    decreases forest_size(queue),
{
    if queue.len() != 0 {
        lemma_step_size(queue);
        lemma_level_order_len(queue.skip(1) + children(queue.first()));
    }
}

/// From a single root, the walk yields the root's entry and then walks on
/// from the root's children.
pub proof fn lemma_level_order_root<K: Ord, V>(node: Node<K, V>)
    ensures
        level_order(seq![node]) == seq![(node.spec_key(), node.spec_value())] + level_order(
            children(node),
        ),
        level_order(seq![node]).len() == node.size(),
        level_order(seq![node])[0] == (node.spec_key(), node.spec_value()),
{
    let q = seq![node];
    Node::lemma_accessors(node);
    assert(q.first() == node);
    assert(q.skip(1) + children(node) =~= children(node));
    lemma_level_order_len(q);
    assert(q.skip(1) =~= Seq::<Node<K, V>>::empty());
    assert(forest_size(q.skip(1)) == 0);
}

/// Two queues joined hold what either of them holds.
proof fn lemma_forest_holds_add<K: Ord, V>(
    a: Seq<Node<K, V>>,
    b: Seq<Node<K, V>>,
    key: K,
    value: V,
)
    ensures
        forest_holds(a + b, key, value) <==> forest_holds(a, key, value) || forest_holds(
            b,
            key,
            value,
        ),
{
    let ab = a + b;
    if forest_holds(ab, key, value) {
        let i = choose|i: int|
            0 <= i < ab.len() && (#[trigger] ab[i]).as_map().contains_pair(key, value);
        if i < a.len() {
            assert(a[i].as_map().contains_pair(key, value));
        } else {
            assert(b[i - a.len()].as_map().contains_pair(key, value));
        }
    }
    if forest_holds(a, key, value) {
        let i = choose|i: int|
            0 <= i < a.len() && (#[trigger] a[i]).as_map().contains_pair(key, value);
        assert(ab[i].as_map().contains_pair(key, value));
    }
    if forest_holds(b, key, value) {
        let i = choose|i: int|
            0 <= i < b.len() && (#[trigger] b[i]).as_map().contains_pair(key, value);
        assert(ab[i + a.len()].as_map().contains_pair(key, value));
    }
}

/// A child slot as a queue holds what the subtree under it holds.
proof fn lemma_link_nodes_hold<K: Ord, V>(link: Link<K, V>, key: K, value: V)
    ensures
        forest_holds(link_nodes(link), key, value) <==> Node::link_map(link).contains_pair(
            key,
            value,
        ),
        forest_ordered(link_nodes(link)) <==> Node::link_ordered(link),
{
    Node::lemma_link(link);
    match link {
        None => {},
        Some(node) => {
            let q = seq![*node];
            assert(q[0] == *node);
            if node.as_map().contains_pair(key, value) {
                assert(q[0].as_map().contains_pair(key, value));
            }
        },
    }
}

/// A child slot holds at most one node.
pub(crate) proof fn lemma_link_nodes_len<K: Ord, V>(link: Link<K, V>)
    ensures
        forest_size(link_nodes(link)) == Node::link_size(link),
        link is None ==> link_nodes(link).len() == 0,
{
    lemma_link_nodes_size(link);
}

/// The subtrees below an ordered node are ordered.
pub(crate) proof fn lemma_children_ordered<K: Ord, V>(node: Node<K, V>)
    requires
        total_order::<K>(),
        node.ordered(),
    ensures
        forest_ordered(children(node)),
{
    Node::lemma_unfold(node);
    Node::lemma_link(node.left);
    Node::lemma_link(node.right);
    let c = children(node);
    assert forall|i: int| 0 <= i < c.len() implies (#[trigger] c[i]).ordered() by {
        if i < link_nodes(node.left).len() {
            assert(c[i] == link_nodes(node.left)[i]);
        } else {
            assert(c[i] == link_nodes(node.right)[i - link_nodes(node.left).len()]);
        }
    }
}

/// The subtrees below an ordered node hold the node's entries but its own.
pub(crate) proof fn lemma_children_hold<K: Ord, V>(node: Node<K, V>, key: K, value: V)
    requires
        total_order::<K>(),
        node.ordered(),
    ensures
        forest_holds(children(node), key, value) <==> node.as_map().contains_pair(key, value)
            && key != node.spec_key(),
{
    Node::lemma_unfold(node);
    Node::lemma_accessors(node);
    Node::lemma_apart(node);
    lemma_link_nodes_hold(node.left, key, value);
    lemma_link_nodes_hold(node.right, key, value);
    lemma_forest_holds_add(link_nodes(node.left), link_nodes(node.right), key, value);
}

/// The walk over one subtree yields exactly the subtree's entries, each once.
pub proof fn lemma_link_level_order<K: Ord, V>(link: Link<K, V>, key: K, value: V)
    requires
        total_order::<K>(),
        Node::link_ordered(link),
    ensures
        link_level_order(link).contains((key, value)) <==> Node::link_map(link).contains_pair(
            key,
            value,
        ),
        link_level_order(link).len() == Node::link_size(link),
{
    lemma_link_nodes_hold(link, key, value);
    lemma_link_nodes_size(link);
    lemma_level_order_len(link_nodes(link));
    lemma_level_order_holds(link_nodes(link), key, value);
}

/// The walk yields exactly the entries that the subtrees in the queue hold.
pub proof fn lemma_level_order_holds<K: Ord, V>(queue: Seq<Node<K, V>>, key: K, value: V)
    requires
        total_order::<K>(),
        forest_ordered(queue),
    ensures
        level_order(queue).contains((key, value)) <==> forest_holds(queue, key, value),
    decreases forest_size(queue),
{
    if queue.len() != 0 {
        let head = queue.first();
        let rest = queue.skip(1);
        let next = rest + children(head);
        let tail = level_order(next);
        let out = level_order(queue);
        lemma_step_size(queue);
        Node::lemma_unfold(head);
        lemma_link_nodes_hold(head.left, key, value);
        lemma_link_nodes_hold(head.right, key, value);
        lemma_forest_holds_add(link_nodes(head.left), link_nodes(head.right), key, value);
        lemma_forest_holds_add(rest, children(head), key, value);
        lemma_forest_holds_add(seq![head], rest, key, value);
        assert(seq![head] + rest =~= queue);
        assert(forest_ordered(next)) by {
            assert forall|i: int| 0 <= i < next.len() implies (#[trigger] next[i]).ordered() by {
                if i < rest.len() {
                    assert(next[i] == queue[i + 1]);
                } else {
                    let c = children(head);
                    let j = i - rest.len();
                    assert(next[i] == c[j]);
                    if j < link_nodes(head.left).len() {
                        assert(c[j] == link_nodes(head.left)[j]);
                    } else {
                        assert(c[j] == link_nodes(head.right)[j - link_nodes(head.left).len()]);
                    }
                }
            }
        }
        lemma_level_order_holds(next, key, value);
        let single = seq![head];
        assert(forest_holds(single, key, value) <==> head.as_map().contains_pair(key, value)) by {
            assert(single[0] == head);
            if forest_holds(single, key, value) {
                let i = choose|i: int|
                    0 <= i < single.len() && (#[trigger] single[i]).as_map().contains_pair(
                        key,
                        value,
                    );
                assert(single[i] == head);
            }
        }
        assert(out =~= seq![(head.key, head.value)] + tail);
        if out.contains((key, value)) {
            let i = choose|i: int| 0 <= i < out.len() && out[i] == (key, value);
            if i > 0 {
                assert(tail[i - 1] == (key, value));
            }
        }
        if tail.contains((key, value)) {
            let i = choose|i: int| 0 <= i < tail.len() && tail[i] == (key, value);
            assert(out[i + 1] == (key, value));
        }
        if key == head.key && value == head.value {
            assert(out[0] == (key, value));
        }
    } else {
        if forest_holds(queue, key, value) {
            let i = choose|i: int|
                0 <= i < queue.len() && (#[trigger] queue[i]).as_map().contains_pair(key, value);
        }
    }
}

/// The entries at `depth` below the root of a subtree, from left to right;
/// the root itself is at depth 0.
pub closed spec fn row<K: Ord, V>(node: Node<K, V>, depth: nat) -> Seq<(K, V)>
    decreases node,
{
    if depth == 0 {
        seq![(node.key, node.value)]
    } else {
        link_row(node.left, (depth - 1) as nat) + link_row(node.right, (depth - 1) as nat)
    }
}

/// The entries at `depth` below the root of the subtree under a child slot.
pub closed spec fn link_row<K: Ord, V>(link: Link<K, V>, depth: nat) -> Seq<(K, V)>
    decreases link,
{
    match link {
        None => Seq::empty(),
        Some(node) => row(*node, depth),
    }
}

/// The entries at `depth` in the subtrees of a queue, subtree after subtree.
pub closed spec fn forest_row<K: Ord, V>(queue: Seq<Node<K, V>>, depth: nat) -> Seq<(K, V)>
    decreases queue.len(),
{
    if queue.len() == 0 {
        Seq::empty()
    } else {
        row(queue.first(), depth) + forest_row(queue.skip(1), depth)
    }
}

/// `count` rows of a queue's subtrees one after the other, from depth `from`
/// downwards.
pub closed spec fn rows<K: Ord, V>(queue: Seq<Node<K, V>>, from: nat, count: nat) -> Seq<(K, V)>
    decreases count,
{
    if count == 0 {
        Seq::empty()
    } else {
        forest_row(queue, from) + rows(queue, from + 1, (count - 1) as nat)
    }
}

/// The number of rows of a subtree.
pub closed spec fn height<K: Ord, V>(node: Node<K, V>) -> nat
    decreases node,
{
    let left = link_height(node.left);
    let right = link_height(node.right);
    if left < right {
        1 + right
    } else {
        1 + left
    }
}

/// The number of rows of the subtree under a child slot.
pub closed spec fn link_height<K: Ord, V>(link: Link<K, V>) -> nat
    decreases link,
{
    match link {
        None => 0,
        Some(node) => height(*node),
    }
}

/// The number of rows of the tallest subtree in a queue.
pub closed spec fn forest_height<K: Ord, V>(queue: Seq<Node<K, V>>) -> nat
    decreases queue.len(),
{
    if queue.len() == 0 {
        0
    } else {
        let first = height(queue.first());
        let rest = forest_height(queue.skip(1));
        if first < rest {
            rest
        } else {
            first
        }
    }
}

/// The entries of a queue's subtrees row by row: all roots, then all nodes
/// at depth 1, and so on, each row from left to right.
pub open spec fn by_rows<K: Ord, V>(queue: Seq<Node<K, V>>) -> Seq<(K, V)> {
    rows(queue, 0, forest_height(queue))
}

/// The children of all the roots of a queue, in the queue's order.
spec fn kids<K: Ord, V>(queue: Seq<Node<K, V>>) -> Seq<Node<K, V>>
    decreases queue.len(),
{
    if queue.len() == 0 {
        Seq::empty()
    } else {
        children(queue.first()) + kids(queue.skip(1))
    }
}

/// A row of two queues joined is the one queue's row and then the other's.
proof fn lemma_forest_row_add<K: Ord, V>(a: Seq<Node<K, V>>, b: Seq<Node<K, V>>, depth: nat)
    ensures
        forest_row(a + b, depth) == forest_row(a, depth) + forest_row(b, depth),
    decreases a.len(),
{
    if a.len() == 0 {
        assert(a + b =~= b);
        assert(forest_row(a, depth) + forest_row(b, depth) =~= forest_row(b, depth));
    } else {
        assert((a + b).skip(1) =~= a.skip(1) + b);
        lemma_forest_row_add(a.skip(1), b, depth);
        assert(forest_row(a + b, depth) =~= forest_row(a, depth) + forest_row(b, depth));
    }
}

/// Two queues joined are as tall as the taller of them.
proof fn lemma_forest_height_add<K: Ord, V>(a: Seq<Node<K, V>>, b: Seq<Node<K, V>>)
    ensures
        forest_height(a + b) == if forest_height(a) < forest_height(b) {
            forest_height(b)
        } else {
            forest_height(a)
        },
    decreases a.len(),
{
    if a.len() == 0 {
        assert(a + b =~= b);
    } else {
        assert((a + b).skip(1) =~= a.skip(1) + b);
        lemma_forest_height_add(a.skip(1), b);
    }
}

/// A child slot as a queue has the rows and the height of its subtree.
proof fn lemma_link_nodes_row<K: Ord, V>(link: Link<K, V>, depth: nat)
    ensures
        forest_row(link_nodes(link), depth) == link_row(link, depth),
        forest_height(link_nodes(link)) == link_height(link),
{
    match link {
        None => {},
        Some(node) => {
            let q = seq![*node];
            assert(q.skip(1) =~= Seq::<Node<K, V>>::empty());
            assert(forest_row(q.skip(1), depth) =~= Seq::<(K, V)>::empty());
            assert(forest_height(q.skip(1)) == 0);
            assert(forest_row(q, depth) =~= row(*node, depth));
        },
    }
}

/// The children's rows are the node's rows one step further down.
proof fn lemma_children_row<K: Ord, V>(node: Node<K, V>, depth: nat)
    ensures
        forest_row(children(node), depth) == row(node, depth + 1),
        forest_height(children(node)) + 1 == height(node),
{
    lemma_link_nodes_row(node.left, depth);
    lemma_link_nodes_row(node.right, depth);
    lemma_forest_row_add(link_nodes(node.left), link_nodes(node.right), depth);
    lemma_forest_height_add(link_nodes(node.left), link_nodes(node.right));
}

/// The children of a queue's roots have the queue's rows one step further
/// down, all its nodes but the roots, and one row less.
proof fn lemma_kids<K: Ord, V>(queue: Seq<Node<K, V>>, depth: nat)
    ensures
        forest_row(kids(queue), depth) == forest_row(queue, depth + 1),
        forest_size(kids(queue)) + queue.len() == forest_size(queue),
        queue.len() > 0 ==> forest_height(kids(queue)) + 1 == forest_height(queue),
        queue.len() == 0 ==> forest_height(kids(queue)) == 0,
    decreases queue.len(),
{
    if queue.len() != 0 {
        let first = queue.first();
        let rest = queue.skip(1);
        lemma_kids(rest, depth);
        lemma_children_row(first, depth);
        lemma_children_size(first);
        lemma_forest_row_add(children(first), kids(rest), depth);
        lemma_forest_size_add(children(first), kids(rest));
        lemma_forest_height_add(children(first), kids(rest));
        if rest.len() == 0 {
            assert(forest_height(rest) == 0);
        }
    }
}

/// Rows of the children are rows of the queue, one step further down.
proof fn lemma_kids_rows<K: Ord, V>(queue: Seq<Node<K, V>>, from: nat, count: nat)
    ensures
        rows(kids(queue), from, count) == rows(queue, from + 1, count),
    decreases count,
{
    if count != 0 {
        lemma_kids(queue, from);
        lemma_kids_rows(queue, from + 1, (count - 1) as nat);
    }
}

/// An empty queue has empty rows.
proof fn lemma_rows_of_nothing<K: Ord, V>(from: nat, count: nat)
    ensures
        rows(Seq::<Node<K, V>>::empty(), from, count) == Seq::<(K, V)>::empty(),
    decreases count,
{
    if count != 0 {
        lemma_rows_of_nothing::<K, V>(from + 1, (count - 1) as nat);
        assert(rows(Seq::<Node<K, V>>::empty(), from, count) =~= Seq::<(K, V)>::empty());
    }
}

/// The walk first yields the roots at the front of the queue, and then goes
/// on from what stood behind them followed by their children.
proof fn lemma_level_order_split<K: Ord, V>(a: Seq<Node<K, V>>, b: Seq<Node<K, V>>)
    ensures
        level_order(a + b) == forest_row(a, 0) + level_order(b + kids(a)),
    decreases a.len(),
{
    if a.len() == 0 {
        assert(a + b =~= b);
        assert(b + kids(a) =~= b);
        assert(forest_row(a, 0) + level_order(b) =~= level_order(b));
    } else {
        let first = a.first();
        let rest = a.skip(1);
        let all = a + b;
        assert(all.first() == first);
        assert(all.skip(1) + children(first) =~= rest + (b + children(first)));
        lemma_level_order_split(rest, b + children(first));
        assert((b + children(first)) + kids(rest) =~= b + kids(a));
        assert(level_order(all) =~= forest_row(a, 0) + level_order(b + kids(a)));
    }
}

/// The breadth-first walk yields the entries row by row: the queue-based
/// order and the order by depth are one and the same.
pub proof fn lemma_level_order_by_rows<K: Ord, V>(queue: Seq<Node<K, V>>)
    ensures
        level_order(queue) == by_rows(queue),
    decreases forest_size(queue), queue.len(),
{
    let tall = forest_height(queue);
    if queue.len() == 0 {
        assert(queue =~= Seq::<Node<K, V>>::empty());
        lemma_rows_of_nothing::<K, V>(0, tall);
    } else {
        let below = kids(queue);
        lemma_kids(queue, 0);
        assert(height(queue.first()) >= 1);
        lemma_level_order_split(queue, Seq::<Node<K, V>>::empty());
        assert(queue + Seq::<Node<K, V>>::empty() =~= queue);
        assert(Seq::<Node<K, V>>::empty() + below =~= below);
        lemma_level_order_by_rows(below);
        lemma_kids_rows(queue, 0, (tall - 1) as nat);
    }
}

/// Reads a queued reference as the node it points to.
pub closed spec fn referents<'a, K: Ord, V>(queue: Seq<&'a Node<K, V>>) -> Seq<Node<K, V>> {
    queue.map_values(|node: &Node<K, V>| *node)
}

/// A cursor that lends out the entries of a subtree in breadth-first order
/// and leaves the subtree as it is.
pub struct Iter<'a, K, V> {
    queue: VecDeque<&'a Node<K, V>>,
}

/// A cursor that takes a subtree apart and hands out its entries in
/// breadth-first order.
pub struct IntoIter<K, V> {
    queue: VecDeque<Node<K, V>>,
}

impl<'a, K: Ord, V> Iter<'a, K, V> {
    /// The entries still to come, in the order in which they will come.
    pub closed spec fn pending(&self) -> Seq<(K, V)> {
        level_order(referents(self.queue@))
    }

    /// The entries still to come, by reference.
    pub open spec fn lent(&self) -> Seq<(&'a K, &'a V)> {
        Seq::new(self.pending().len(), |i: int| (&self.pending()[i].0, &self.pending()[i].1))
    }

    /// A cursor over the subtree under `link`.
    pub(crate) fn over(link: &'a Link<K, V>) -> (iter: Self)
        ensures
            iter.pending() == link_level_order(*link),
    {
        let mut queue = VecDeque::new();
        if let Some(root) = link.as_ref() {
            queue.push_back(&**root);
        }
        assert(referents(queue@) =~= link_nodes(*link));
        Iter { queue }
    }
}

impl<'a, K: Ord, V> Iterator for Iter<'a, K, V> {
    type Item = (&'a K, &'a V);

    /// Yields the next entry: the one at the front of the queue, whose
    /// children then join the back.
    fn next(&mut self) -> (item: Option<(&'a K, &'a V)>) {
        let ghost before = referents(self.queue@);
        match self.queue.pop_front() {
            None => None,
            Some(node) => {
                if let Some(left) = node.left.as_ref() {
                    self.queue.push_back(&**left);
                }
                if let Some(right) = node.right.as_ref() {
                    self.queue.push_back(&**right);
                }
                proof {
                    assert(before.first() == *node);
                    assert(referents(self.queue@) =~= before.skip(1) + children(*node));
                    let out = level_order(before);
                    assert(out.skip(1) =~= level_order(before.skip(1) + children(*node)));
                    assert(self.lent() =~= old(self).lent().drop_first());
                }
                Some((&node.key, &node.value))
            },
        }
    }
}

impl<'a, K: Ord, V> IteratorSpecImpl for Iter<'a, K, V> {
    /// The cursor keeps to what is said of it here.
    open spec fn obeys_prophetic_iter_laws(&self) -> bool {
        true
    }

    /// What the cursor will yield: the entries still to come, by reference.
    open spec fn remaining(&self) -> Seq<(&'a K, &'a V)> {
        self.lent()
    }

    /// The cursor comes to an end.
    open spec fn will_return_none(&self) -> bool {
        true
    }

    /// A cursor stands to the one it started as by what it will yield.
    open spec fn initial_value_relation(&self, init: &Self) -> bool {
        init.pending() == self.pending()
    }

    /// The number of entries still to come.
    open spec fn decrease(&self) -> Option<nat> {
        Some(self.pending().len())
    }

    /// The entry that comes after `index` others.
    open spec fn peek(&self, index: int) -> Option<(&'a K, &'a V)> {
        if 0 <= index < self.pending().len() {
            Some((&self.pending()[index].0, &self.pending()[index].1))
        } else {
            None
        }
    }
}

impl<K: Ord, V> IntoIter<K, V> {
    /// The entries still to come, in the order in which they will come.
    pub closed spec fn pending(&self) -> Seq<(K, V)> {
        level_order(self.queue@)
    }

    /// A cursor that consumes the subtree under `link`.
    pub(crate) fn over(link: Link<K, V>) -> (iter: Self)
        ensures
            iter.pending() == link_level_order(link),
    {
        let mut queue = VecDeque::new();
        if let Some(root) = link {
            queue.push_back(*root);
        }
        assert(queue@ =~= link_nodes(link));
        IntoIter { queue }
    }
}

impl<K: Ord, V> Iterator for IntoIter<K, V> {
    type Item = (K, V);

    /// Yields the next entry: the one at the front of the queue, whose
    /// children then join the back.
    fn next(&mut self) -> (item: Option<(K, V)>) {
        let ghost before = self.queue@;
        match self.queue.pop_front() {
            None => None,
            Some(mut node) => {
                if let Some(left) = node.left.take() {
                    self.queue.push_back(*left);
                }
                if let Some(right) = node.right.take() {
                    self.queue.push_back(*right);
                }
                proof {
                    assert(self.queue@ =~= before.skip(1) + children(before.first()));
                    let out = level_order(before);
                    assert(out.skip(1) =~= level_order(before.skip(1) + children(before.first())));
                }
                Some((node.key, node.value))
            },
        }
    }
}

impl<K: Ord, V> IteratorSpecImpl for IntoIter<K, V> {
    /// The cursor keeps to what is said of it here.
    open spec fn obeys_prophetic_iter_laws(&self) -> bool {
        true
    }

    /// What the cursor will yield: the entries still to come.
    open spec fn remaining(&self) -> Seq<(K, V)> {
        self.pending()
    }

    /// The cursor comes to an end.
    open spec fn will_return_none(&self) -> bool {
        true
    }

    /// A cursor stands to the one it started as by what it will yield.
    open spec fn initial_value_relation(&self, init: &Self) -> bool {
        init.pending() == self.pending()
    }

    /// The number of entries still to come.
    open spec fn decrease(&self) -> Option<nat> {
        Some(self.pending().len())
    }

    /// The entry that comes after `index` others.
    open spec fn peek(&self, index: int) -> Option<(K, V)> {
        if 0 <= index < self.pending().len() {
            Some(self.pending()[index])
        } else {
            None
        }
    }
}

impl<K: Ord, V> Node<K, V> {
    /// A cursor over this subtree, breadth first.
    pub fn iter(&self) -> (iter: Iter<'_, K, V>)
        ensures
            iter.pending() == level_order(seq![*self]),
    {
        let mut queue = VecDeque::new();
        queue.push_back(self);
        assert(referents(queue@) =~= seq![*self]);
        Iter { queue }
    }

    /// A cursor that consumes this subtree, breadth first.
    pub fn into_iter(self) -> (iter: IntoIter<K, V>)
        ensures
            iter.pending() == level_order(seq![self]),
    {
        let mut queue = VecDeque::new();
        queue.push_back(self);
        assert(queue@ =~= seq![self]);
        IntoIter { queue }
    }
}

} // verus!
