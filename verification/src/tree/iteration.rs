//! Level-order traversal of the tree.
//!
//! A traversal takes a snapshot of the tree's values in breadth-first
//! order — each node before its children, level by level, left to right —
//! and hands them out one at a time. A traversal is one-shot: a finished
//! traversal cannot be rewound, but a fresh one can always be requested
//! from the tree, and later mutation of the tree does not disturb a
//! traversal already begun.

use crate::node::Node;
use crate::tree::Tree;
use vstd::multiset::Multiset;
use vstd::prelude::*;

verus! {

/// The number of nodes in a subtree.
spec fn subtree_count(n: Node) -> nat
    decreases n,
{
    1 + opt_count(n.left) + opt_count(n.right)
}

/// The number of nodes in an optional subtree.
spec fn opt_count(slot: Option<Box<Node>>) -> nat
    decreases slot,
{
    match slot {
        None => 0,
        Some(n) => subtree_count(*n),
    }
}

/// The children of a node, left first, as the nodes a breadth-first walk
/// enqueues when it visits the node.
spec fn children_of(n: Node) -> Seq<Node> {
    (match n.left {
        None => Seq::empty(),
        Some(l) => seq![*l],
    }) + (match n.right {
        None => Seq::empty(),
        Some(r) => seq![*r],
    })
}

/// The number of nodes in all subtrees of a queue together.
spec fn queue_count(q: Seq<Node>) -> nat
    decreases q.len(),
{
    if q.len() == 0 {
        0
    } else {
        subtree_count(q[0]) + queue_count(q.drop_first())
    }
}

/// The values in all subtrees of a queue together, with multiplicity.
spec fn queue_mset(q: Seq<Node>) -> Multiset<i64>
    decreases q.len(),
{
    if q.len() == 0 {
        Multiset::empty()
    } else {
        q[0].as_mset().add(queue_mset(q.drop_first()))
    }
}

/// The values yielded by a breadth-first walk that starts with the queue
/// `q`: the front subtree's root value first, its children appended at the
/// back of the queue.
spec fn level_order_from(q: Seq<Node>) -> Seq<i64>
    decreases queue_count(q),
    via level_order_from_decreases
{
    if q.len() == 0 {
        Seq::empty()
    } else {
        seq![q[0].value] + level_order_from(q.drop_first() + children_of(q[0]))
    }
}

#[via_fn]
proof fn level_order_from_decreases(q: Seq<Node>) {
    if q.len() != 0 {
        lemma_step_count(q);
    }
}

/// Node counts add up over queue concatenation.
proof fn lemma_queue_count_concat(a: Seq<Node>, b: Seq<Node>)
    ensures
        queue_count(a + b) == queue_count(a) + queue_count(b),
    decreases a.len(),
{
    if a.len() == 0 {
        assert(a + b =~= b);
    } else {
        assert((a + b).drop_first() =~= a.drop_first() + b);
        lemma_queue_count_concat(a.drop_first(), b);
    }
}

/// A node holds one more node than its two child subtrees together.
proof fn lemma_children_count(n: Node)
    ensures
        queue_count(children_of(n)) + 1 == subtree_count(n),
{
    let c = children_of(n);
    reveal_with_fuel(queue_count, 4);
    match (n.left, n.right) {
        (None, None) => {
            assert(c =~= Seq::<Node>::empty());
        },
        (None, Some(r)) => {
            assert(c =~= seq![*r]);
            assert(c.drop_first() =~= Seq::<Node>::empty());
        },
        (Some(l), None) => {
            assert(c =~= seq![*l]);
            assert(c.drop_first() =~= Seq::<Node>::empty());
        },
        (Some(l), Some(r)) => {
            assert(c =~= seq![*l, *r]);
            assert(c.drop_first() =~= seq![*r]);
            assert(c.drop_first().drop_first() =~= Seq::<Node>::empty());
        },
    }
}

/// One step of the breadth-first walk shrinks the queue's node count by
/// exactly the visited node.
proof fn lemma_step_count(q: Seq<Node>)
    requires
        q.len() > 0,
    ensures
        queue_count(q.drop_first() + children_of(q[0])) + 1 == queue_count(q),
{
    lemma_queue_count_concat(q.drop_first(), children_of(q[0]));
    lemma_children_count(q[0]);
}

/// Value multisets add up over queue concatenation.
proof fn lemma_queue_mset_concat(a: Seq<Node>, b: Seq<Node>)
    ensures
        queue_mset(a + b) == queue_mset(a).add(queue_mset(b)),
    decreases a.len(),
{
    if a.len() == 0 {
        assert(a + b =~= b);
        assert(queue_mset(a).add(queue_mset(b)) =~= queue_mset(b));
    } else {
        assert((a + b).drop_first() =~= a.drop_first() + b);
        lemma_queue_mset_concat(a.drop_first(), b);
        assert(queue_mset(a + b) =~= queue_mset(a).add(queue_mset(b)));
    }
}

/// A node's values are its own value and those of its two child subtrees.
proof fn lemma_children_mset(n: Node)
    ensures
        queue_mset(children_of(n)).insert(n.value) == n.as_mset(),
{
    Node::lemma_as_mset_unfold(n);
    let c = children_of(n);
    reveal_with_fuel(queue_mset, 4);
    match (n.left, n.right) {
        (None, None) => {
            assert(c =~= Seq::<Node>::empty());
            assert(queue_mset(c).insert(n.value) =~= n.as_mset());
        },
        (None, Some(r)) => {
            assert(c =~= seq![*r]);
            assert(c.drop_first() =~= Seq::<Node>::empty());
            assert(queue_mset(c).insert(n.value) =~= n.as_mset());
        },
        (Some(l), None) => {
            assert(c =~= seq![*l]);
            assert(c.drop_first() =~= Seq::<Node>::empty());
            assert(queue_mset(c).insert(n.value) =~= n.as_mset());
        },
        (Some(l), Some(r)) => {
            assert(c =~= seq![*l, *r]);
            assert(c.drop_first() =~= seq![*r]);
            assert(c.drop_first().drop_first() =~= Seq::<Node>::empty());
            assert(queue_mset(c).insert(n.value) =~= n.as_mset());
        },
    }
}

/// A breadth-first walk yields the values of its queue's subtrees, each as
/// often as it is stored.
proof fn lemma_level_order_mset(q: Seq<Node>)
    ensures
        level_order_from(q).to_multiset() == queue_mset(q),
    decreases queue_count(q), q.len(),
{
    broadcast use vstd::seq_lib::group_to_multiset_ensures;

    if q.len() == 0 {
        assert(level_order_from(q).to_multiset() =~= queue_mset(q));
    } else {
        let rest = q.drop_first() + children_of(q[0]);
        lemma_step_count(q);
        lemma_level_order_mset(rest);
        lemma_queue_mset_concat(q.drop_first(), children_of(q[0]));
        lemma_children_mset(q[0]);
        let tail = level_order_from(rest);
        assert(seq![q[0].value] + tail =~= tail.insert(0, q[0].value));
        assert(tail.insert(0, q[0].value).to_multiset() =~= tail.to_multiset().insert(
            q[0].value,
        ));
        assert(level_order_from(q).to_multiset() =~= queue_mset(q));
    }
}

/// A one-shot level-order traversal: the values of a tree in breadth-first
/// order, handed out front to back.
pub struct IterShared {
    values: Vec<i64>,
}

impl View for IterShared {
    type V = Seq<i64>;

    /// The values the traversal has not yet handed out.
    closed spec fn view(&self) -> Seq<i64> {
        self.values@
    }
}

impl IterShared {
    /// Hands out the next value in level order, or `None` when the
    /// traversal is finished.
    pub fn next(&mut self) -> (item: Option<i64>)
        ensures
            old(self)@.len() == 0 ==> item.is_none() && *final(self) == *old(self),
            old(self)@.len() > 0 ==> item == Some(old(self)@[0]) && final(self)@ == old(
                self,
            )@.drop_first(),
    {
        if self.values.len() > 0 {
            let item = self.values.remove(0);
            proof {
                assert(self@ =~= old(self)@.drop_first());
            }
            Some(item)
        } else {
            None
        }
    }
}

impl Tree {
    /// The queue that seeds a traversal of this tree: the root, if any.
    pub closed spec fn root_queue(self) -> Seq<Node> {
        match self.root {
            None => Seq::empty(),
            Some(r) => seq![*r],
        }
    }

    /// The level-order sequence of the tree: breadth-first, each node
    /// before its children, left to right within a level.
    pub closed spec fn level_order(self) -> Seq<i64> {
        level_order_from(self.root_queue())
    }

    /// Starts a level-order traversal over a snapshot of the tree's
    /// current values.
    pub fn iter_shared(&self) -> (iter: IterShared)
        ensures
            iter@ == self.level_order(),
    {
        let mut queue: Vec<&Node> = Vec::new();
        let mut values: Vec<i64> = Vec::new();
        match &self.root {
            None => {},
            Some(r) => queue.push(&**r),
        }
        proof {
            assert(queue@.map_values(|n: &Node| *n) =~= self.root_queue());
        }
        while queue.len() > 0
            invariant
                values@ + level_order_from(queue@.map_values(|n: &Node| *n))
                    == self.level_order(),
            decreases queue_count(queue@.map_values(|n: &Node| *n)),
        {
            let ghost nodes_before = queue@.map_values(|n: &Node| *n);
            let visited = queue.remove(0);
            values.push(visited.get_shared_value());
            match visited.get_left_child_shared() {
                None => {},
                Some(l) => queue.push(l),
            }
            match visited.get_right_child_shared() {
                None => {},
                Some(r) => queue.push(r),
            }
            proof {
                let nodes_after = queue@.map_values(|n: &Node| *n);
                assert(nodes_after =~= nodes_before.drop_first() + children_of(
                    nodes_before[0],
                ));
                lemma_step_count(nodes_before);
                assert(values@ + level_order_from(nodes_after) =~= self.level_order());
            }
        }
        proof {
            assert(values@ =~= self.level_order());
        }
        IterShared { values }
    }

    /// Level-order traversal yields exactly the values a well-formed tree
    /// currently stores: each stored value once, and nothing else.
    pub proof fn lemma_level_order_is_value_set(tree: Tree)
        requires
            tree.well_formed(),
        ensures
            forall|v: i64| #[trigger] tree.level_order().contains(v) <==> tree@.contains(v),
            tree.level_order().no_duplicates(),
            tree.level_order().len() == tree@.len(),
    {
        broadcast use vstd::seq_lib::group_to_multiset_ensures;

        lemma_level_order_mset(tree.root_queue());
        Node::lemma_mset_counts(tree.spec_root());
        let s = tree.level_order();
        assert(queue_mset(tree.root_queue()) =~= Node::opt_mset(tree.spec_root())) by {
            reveal_with_fuel(queue_mset, 3);
            match tree.root {
                None => {},
                Some(r) => {
                    assert(tree.root_queue().drop_first() =~= Seq::<Node>::empty());
                },
            }
        }
        assert forall|v: i64| #[trigger] s.contains(v) <==> tree@.contains(v) by {
            assert(s.to_multiset().count(v) == Node::opt_mset(tree.spec_root()).count(v));
        }
        assert(forall|v: i64| s.to_multiset().contains(v) ==> s.to_multiset().count(v) == 1);
        s.lemma_multiset_has_no_duplicates_conv();
        assert(s.to_set() =~= tree@) by {
            assert(forall|v: i64| #[trigger] s.to_set().contains(v) <==> s.contains(v));
        }
        s.unique_seq_to_set();
    }
}

} // verus!
