//! A singly linked list whose nodes live in a table and are known by number.
use std::collections::HashMap;
use vstd::prelude::*;

verus! {

/// The number under which a node is kept. Numbers are given out once.
#[derive(Debug, Clone, Copy, PartialEq, Eq, Hash, Structural)]
pub struct NodeID(pub usize);

/// An item and the number of the item below it.
struct Node<T> {
    next: Option<NodeID>,
    data: T,
}

/// The list. `push` puts an item on top; every item can be found again under
/// the number that `push` gave it.
pub struct SList<T> {
    free_id: NodeID,
    head: Option<NodeID>,
    nodes: HashMap<usize, Node<T>>,
    /// The numbers of the nodes from the top down.
    chain: Ghost<Seq<usize>>,
}

impl<T> View for SList<T> {
    type V = Seq<(NodeID, T)>;

    /// The items from the top down, each with its number.
    open spec fn view(&self) -> Seq<(NodeID, T)> {
        self.items()
    }
}

impl<T> SList<T> {
    /// The items from the top down, each with its number.
    pub closed spec fn items(&self) -> Seq<(NodeID, T)> {
        Seq::new(
            self.chain@.len(),
            |i: int| (NodeID(self.chain@[i]), self.nodes@[self.chain@[i]].data),
        )
    }

    /// The numbers of the items from the top down.
    pub open spec fn ids(&self) -> Seq<NodeID> {
        self@.map_values(|item: (NodeID, T)| item.0)
    }

    /// The number that the next `push` will give out.
    pub closed spec fn next_id(&self) -> nat {
        self.free_id.0 as nat
    }

    /// The invariant: the table holds exactly the nodes of the chain that
    /// starts at the head, each once, and every number in use has been given
    /// out.
    pub closed spec fn wf(&self) -> bool {
        let chain = self.chain@;
        &&& chain.no_duplicates()
        &&& forall|id: usize| self.nodes@.contains_key(id) <==> chain.contains(id)
        &&& forall|i: int| 0 <= i < chain.len() ==> #[trigger] chain[i] < self.free_id.0
        &&& self.head == if chain.len() == 0 {
            None
        } else {
            Some(NodeID(chain[0]))
        }
        &&& forall|i: int|
            0 <= i < chain.len() ==> (#[trigger] self.nodes@[chain[i]]).next == if i + 1
                < chain.len() {
                Some(NodeID(chain[i + 1]))
            } else {
                None
            }
    }

    /// Where `id` stands in the list, counted from the top.
    pub open spec fn position(&self, id: NodeID) -> int {
        self.ids().index_of(id)
    }

    /// No number stands for two items.
    pub proof fn lemma_ids_distinct(&self)
        requires
            self.wf(),
        ensures
            self.ids().no_duplicates(),
            self.ids().len() == self@.len(),
            forall|i: int| 0 <= i < self@.len() ==> self.ids()[i].0 < self.next_id(),
    {
        let ids = self.ids();
        assert forall|i: int, j: int| 0 <= i < ids.len() && 0 <= j < ids.len() && i != j implies ids[i]
            != ids[j] by {
            assert(ids[i] == NodeID(self.chain@[i]));
            assert(ids[j] == NodeID(self.chain@[j]));
        }
        assert forall|i: int| 0 <= i < self@.len() implies ids[i].0 < self.next_id() by {
            assert(ids[i] == NodeID(self.chain@[i]));
        }
    }

    /// The numbers of the items are those of the chain.
    proof fn lemma_ids(&self)
        ensures
            self.ids().len() == self.chain@.len(),
            forall|i: int|
                0 <= i < self.chain@.len() ==> #[trigger] self.ids()[i] == NodeID(self.chain@[i]),
            forall|id: NodeID| self.ids().contains(id) <==> self.chain@.contains(id.0),
    {
        let ids = self.ids();
        assert forall|id: NodeID| ids.contains(id) <==> self.chain@.contains(id.0) by {
            if ids.contains(id) {
                let i = choose|i: int| 0 <= i < ids.len() && ids[i] == id;
                assert(self.chain@[i] == id.0);
            }
            if self.chain@.contains(id.0) {
                let i = choose|i: int| 0 <= i < self.chain@.len() && self.chain@[i] == id.0;
                assert(ids[i] == id);
            }
        }
    }

    /// A number that stands at `at` in the chain has `at` for its position.
    proof fn lemma_position(&self, id: NodeID, at: int)
        requires
            self.wf(),
            0 <= at < self.chain@.len(),
            self.chain@[at] == id.0,
        ensures
            self.ids().contains(id),
            self.position(id) == at,
    {
        self.lemma_ids();
        self.lemma_ids_distinct();
        let ids = self.ids();
        assert(ids[at] == id);
        let found = ids.index_of(id);
        assert(0 <= found < ids.len() && ids[found] == id);
    }

    /// An empty list.
    pub fn new() -> (list: Self)
        ensures
            list.wf(),
            list@ == Seq::<(NodeID, T)>::empty(),
            list.next_id() == 0,
    {
        let list = Self {
            free_id: NodeID(0),
            head: None,
            nodes: HashMap::new(),
            chain: Ghost(Seq::empty()),
        };
        assert(list@ =~= Seq::<(NodeID, T)>::empty());
        list
    }

    /// Puts `item` on top of the list and returns the number to find it by.
    pub fn push(&mut self, item: T) -> (id: NodeID)
        requires
            old(self).wf(),
            old(self).next_id() < usize::MAX,
        ensures
            final(self).wf(),
            id == NodeID(old(self).next_id() as usize),
            final(self)@ == seq![(id, item)] + old(self)@,
            final(self).next_id() == old(self).next_id() + 1,
    {
        let new_head = Node { next: self.head, data: item };
        let id = self.free_id;
        self.head = Some(id);
        self.free_id = NodeID(id.0 + 1);
        self.nodes.insert(id.0, new_head);
        proof {
            let before = old(self).chain@;
            let after = seq![id.0] + before;
            self.chain = Ghost(after);
            assert forall|i: int| 0 < i < after.len() implies after[i] == before[i - 1] by {}
            assert(after.no_duplicates()) by {
                assert forall|i: int, j: int|
                    0 <= i < after.len() && 0 <= j < after.len() && i != j implies after[i]
                    != after[j] by {
                    if i > 0 {
                        assert(after[i] == before[i - 1]);
                    }
                    if j > 0 {
                        assert(after[j] == before[j - 1]);
                    }
                }
            }
            assert forall|key: usize| self.nodes@.contains_key(key) <==> after.contains(key) by {
                if key == id.0 {
                    assert(after[0] == key);
                } else {
                    if before.contains(key) {
                        let i = choose|i: int| 0 <= i < before.len() && before[i] == key;
                        assert(after[i + 1] == key);
                    }
                    if after.contains(key) {
                        let i = choose|i: int| 0 <= i < after.len() && after[i] == key;
                        assert(before[i - 1] == key);
                    }
                }
            }
            assert forall|i: int| 0 <= i < after.len() implies (#[trigger] self.nodes@[after[i]]).next
                == if i + 1 < after.len() {
                Some(NodeID(after[i + 1]))
            } else {
                None
            } by {
                if i > 0 {
                    assert(after[i] == before[i - 1]);
                    assert(old(self).nodes@[before[i - 1]].next == if i < before.len() {
                        Some(NodeID(before[i]))
                    } else {
                        None
                    });
                }
            }
            assert forall|i: int| 0 <= i < after.len() implies #[trigger] after[i]
                < self.free_id.0 by {
                if i > 0 {
                    assert(after[i] == before[i - 1]);
                }
            }
            assert(self@ =~= seq![(id, item)] + old(self)@) by {
                assert forall|i: int| 0 < i < after.len() implies self@[i] == old(self)@[i - 1] by {
                    assert(after[i] == before[i - 1]);
                }
            }
        }
        id
    }

    /// The item kept under `node_id`, if there is one.
    pub fn get(&self, node_id: NodeID) -> (item: Option<&T>)
        requires
            self.wf(),
        ensures
            match item {
                Some(data) => self.ids().contains(node_id) && self@[self.position(node_id)] == (
                    node_id,
                    *data,
                ),
                None => !self.ids().contains(node_id),
            },
    {
        proof {
            self.lemma_ids();
            if self.chain@.contains(node_id.0) {
                let at = choose|i: int| 0 <= i < self.chain@.len() && self.chain@[i] == node_id.0;
                self.lemma_position(node_id, at);
            }
        }
        match self.nodes.get(&node_id.0) {
            Some(node) => Some(&node.data),
            None => None,
        }
    }

    /// The item on top, if the list is not empty.
    pub fn top(&self) -> (item: Option<&T>)
        requires
            self.wf(),
        ensures
            match item {
                Some(data) => self@.len() > 0 && self@[0].1 == *data,
                None => self@.len() == 0,
            },
    {
        match self.head {
            Some(head_id) => {
                proof {
                    self.lemma_position(head_id, 0);
                }
                self.get(head_id)
            },
            None => None,
        }
    }

    /// The number of the item that stands just above `node_id`. The top item
    /// has none above it; for a number that is not in the list the walk runs
    /// to the bottom and the answer is the bottom item.
    pub fn find_prior(&self, node_id: NodeID) -> (prior: Option<NodeID>)
        requires
            self.wf(),
        ensures
            prior == if self.ids().contains(node_id) {
                if self.position(node_id) == 0 {
                    None
                } else {
                    Some(self.ids()[self.position(node_id) - 1])
                }
            } else if self.ids().len() == 0 {
                None
            } else {
                Some(self.ids().last())
            },
    {
        let mut current_id = self.head;
        let mut prior_id: Option<NodeID> = None;
        let ghost mut at: int = 0;
        proof {
            self.lemma_ids();
        }
        while current_id.is_some()
            invariant
                self.wf(),
                0 <= at <= self.chain@.len(),
                current_id == if at < self.chain@.len() {
                    Some(NodeID(self.chain@[at]))
                } else {
                    None
                },
                prior_id == if at == 0 {
                    None
                } else {
                    Some(NodeID(self.chain@[at - 1]))
                },
                forall|i: int| 0 <= i < at ==> self.chain@[i] != node_id.0,
            ensures
                0 <= at <= self.chain@.len(),
                prior_id == if at == 0 {
                    None
                } else {
                    Some(NodeID(self.chain@[at - 1]))
                },
                forall|i: int| 0 <= i < at ==> self.chain@[i] != node_id.0,
                at < self.chain@.len() ==> self.chain@[at] == node_id.0,
            decreases self.chain@.len() - at,
        {
            let curr_id = current_id.unwrap();
            if curr_id == node_id {
                break ;
            } else {
                prior_id = current_id;
                assert(self.nodes@.contains_key(self.chain@[at])) by {
                    assert(self.chain@.contains(self.chain@[at]));
                }
                current_id = self.nodes.get(&curr_id.0).unwrap().next;
                proof {
                    at = at + 1;
                }
            }
        }
        proof {
            self.lemma_ids();
            if at < self.chain@.len() {
                self.lemma_position(node_id, at);
            } else {
                assert(!self.chain@.contains(node_id.0));
            }
        }
        prior_id
    }

    /// Takes the item under `node_id` out of the list, provided that it
    /// stands in the middle: it is in the list, and neither on top nor at the
    /// bottom. Otherwise the list stays as it is and the answer is `Err`.
    pub fn delete_middle(&mut self, node_id: NodeID) -> (done: Result<(), ()>)
        requires
            old(self).wf(),
        ensures
            final(self).wf(),
            final(self).next_id() == old(self).next_id(),
            done is Ok <==> old(self).ids().contains(node_id) && 0 < old(self).position(node_id)
                < old(self).ids().len() - 1,
            done is Ok ==> final(self)@ == old(self)@.remove(old(self).position(node_id)),
            done is Err ==> final(self)@ == old(self)@,
    {
        proof {
            self.lemma_ids();
            if self.chain@.contains(node_id.0) {
                let at = choose|i: int| 0 <= i < self.chain@.len() && self.chain@[i] == node_id.0;
                self.lemma_position(node_id, at);
            }
        }
        let next = match self.nodes.get(&node_id.0) {
            Some(node) => node.next,
            None => {
                return Err(());
            },
        };
        if next.is_none() {
            return Err(());
        }
        let prior_id = match self.find_prior(node_id) {
            Some(prior_id) => prior_id,
            None => {
                return Err(());
            },
        };
        let ghost at = self.position(node_id);
        let ghost before = self.chain@;
        proof {
            assert(before[at] == node_id.0);
            assert(before[at - 1] == prior_id.0);
            assert(before.contains(prior_id.0));
        }
        let mut prior = self.nodes.remove(&prior_id.0).unwrap();
        prior.next = next;
        self.nodes.insert(prior_id.0, prior);
        self.nodes.remove(&node_id.0);
        proof {
            let after = before.remove(at);
            self.chain = Ghost(after);
            assert forall|i: int| 0 <= i < after.len() implies after[i] == if i < at {
                before[i]
            } else {
                before[i + 1]
            } by {}
            assert(after.no_duplicates());
            assert forall|key: usize| self.nodes@.contains_key(key) <==> after.contains(key) by {
                if after.contains(key) {
                    let i = choose|i: int| 0 <= i < after.len() && after[i] == key;
                    assert(before.contains(key));
                }
                if self.nodes@.contains_key(key) {
                    assert(before.contains(key));
                    let i = choose|i: int| 0 <= i < before.len() && before[i] == key;
                    if i < at {
                        assert(after[i] == key);
                    } else {
                        assert(after[i - 1] == key);
                    }
                }
            }
            assert forall|i: int| 0 <= i < after.len() implies (#[trigger] self.nodes@[after[i]]).next
                == if i + 1 < after.len() {
                Some(NodeID(after[i + 1]))
            } else {
                None
            } by {
                if i < at - 1 {
                    assert(old(self).nodes@[before[i]].next == Some(NodeID(before[i + 1])));
                } else if i == at - 1 {
                    assert(old(self).nodes@[before[at]].next == Some(NodeID(before[at + 1])));
                } else {
                    assert(old(self).nodes@[before[i + 1]].next == if i + 2 < before.len() {
                        Some(NodeID(before[i + 2]))
                    } else {
                        None
                    });
                }
            }
            assert(self@ =~= old(self)@.remove(at));
        }
        Ok(())
    }
}

} // verus!
