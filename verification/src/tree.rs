//! The binary search tree container: search, insertion and deletion policy
//! on top of the node primitives.

pub mod iteration;

use crate::node::{DiretionFromParent, Node};
use vstd::prelude::*;

verus! {

/// An unbalanced binary search tree of unique `i64` values.
#[verifier::ext_equal]
pub struct Tree {
    pub root: Option<Box<Node>>,
}

impl Tree {
    /// The root slot of the tree.
    pub open spec fn spec_root(self) -> Option<Box<Node>> {
        self.root
    }

    /// Well-formedness: the root subtree satisfies the search-tree ordering
    /// and the root, if any, is tagged as having no parent.
    pub open spec fn well_formed(self) -> bool {
        &&& Node::opt_wf(self.spec_root())
        &&& (match self.spec_root() {
            Some(r) => r.spec_dir() == DiretionFromParent::NoParent,
            None => true,
        })
    }
}

impl View for Tree {
    type V = Set<i64>;

    /// The tree viewed as the set of values it currently stores.
    open spec fn view(&self) -> Set<i64> {
        Node::opt_set(self.spec_root())
    }
}

impl Tree {
    /// An empty tree.
    pub fn new() -> (tree: Tree)
        ensures
            tree.well_formed(),
            tree@ == Set::<i64>::empty(),
    {
        Tree { root: None }
    }

    /// Builds a tree from a sequence of values, inserting each in sequence
    /// order; a value already present is a no-op, so later duplicates are
    /// ignored.
    pub fn from_sequence(values: &Vec<i64>) -> (tree: Tree)
        ensures
            tree.well_formed(),
            tree@ == values@.to_set(),
    {
        let mut tree = Tree::new();
        proof {
            assert(values@.take(0) =~= Seq::<i64>::empty());
            assert(Seq::<i64>::empty().to_set() =~= Set::<i64>::empty());
        }
        let mut i: usize = 0;
        while i < values.len()
            invariant
                tree.well_formed(),
                i <= values.len(),
                tree@ == values@.take(i as int).to_set(),
            decreases values.len() - i,
        {
            tree.add(values[i]);
            proof {
                assert(values@.take(i as int + 1) =~= values@.take(i as int).push(
                    values@[i as int],
                ));
                values@.take(i as int).lemma_push_to_set_commute(values@[i as int]);
            }
            i = i + 1;
        }
        proof {
            assert(values@.take(values.len() as int) =~= values@);
        }
        tree
    }

    /// Inserts `new_value` and returns `true`; returns `false` and leaves
    /// the tree untouched if the value is already present.
    pub fn add(&mut self, new_value: i64) -> (added: bool)
        requires
            old(self).well_formed(),
        ensures
            final(self).well_formed(),
            final(self)@ == old(self)@.insert(new_value),
            added == !old(self)@.contains(new_value),
            !added ==> *final(self) == *old(self),
    {
        match self.root.take() {
            None => {
                self.root = Some(Box::new(Node::new(new_value)));
                proof {
                    assert(self@ =~= old(self)@.insert(new_value));
                }
                true
            },
            Some(mut root) => {
                let added = (&mut *root).insert(new_value);
                self.root = Some(root);
                proof {
                    if !added {
                        assert(*self =~= *old(self));
                    }
                }
                added
            },
        }
    }

    /// Whether `searched` is currently stored in the tree.
    pub fn contains(&self, searched: i64) -> (found: bool)
        requires
            self.well_formed(),
        ensures
            found == self@.contains(searched),
    {
        match &self.root {
            None => false,
            Some(root) => (&**root).contains_value(searched),
        }
    }

    /// Removes `to_delete` and returns `true`; returns `false` and leaves
    /// the tree untouched, structurally unchanged, if the value is absent.
    /// Every other value stays in the tree.
    pub fn delete(&mut self, to_delete: i64) -> (removed: bool)
        requires
            old(self).well_formed(),
        ensures
            final(self).well_formed(),
            final(self)@ == old(self)@.remove(to_delete),
            removed == old(self)@.contains(to_delete),
            !removed ==> *final(self) == *old(self),
            !final(self)@.contains(to_delete),
            forall|v: i64| v != to_delete ==> final(self)@.contains(v) == old(self)@.contains(v),
    {
        let removed = Node::delete_from_slot(&mut self.root, to_delete);
        proof {
            if !removed {
                assert(*self =~= *old(self));
            }
        }
        removed
    }

    /// The in-order sequence of the tree: for every node, the values of
    /// its left subtree come first, then its own value, then the values of
    /// its right subtree.
    pub open spec fn in_order(self) -> Seq<i64> {
        Node::opt_in_order(self.spec_root())
    }

    /// The in-order sequence of the tree's values as a vector: in a
    /// well-formed tree it is strictly ascending.
    pub fn in_order_values(&self) -> (values: Vec<i64>)
        ensures
            values@ == self.in_order(),
    {
        let mut values: Vec<i64> = Vec::new();
        Node::push_in_order(&self.root, &mut values);
        proof {
            assert(values@ =~= self.in_order());
        }
        values
    }

    /// The root node, if the tree is not empty.
    pub fn get_root_node(&self) -> (root: Option<&Node>)
        ensures
            match root {
                None => self.spec_root().is_none(),
                Some(r) => self.spec_root().is_some() && *r == *self.spec_root().unwrap(),
            },
    {
        match &self.root {
            None => None,
            Some(root) => Some(&**root),
        }
    }

    /// In-order traversal of a well-formed tree yields its values in
    /// strictly ascending order, and yields exactly the values the tree
    /// currently stores.
    pub proof fn lemma_in_order_ascending(tree: Tree)
        requires
            tree.well_formed(),
        ensures
            forall|i: int, j: int|
                0 <= i < j < tree.in_order().len() ==> tree.in_order()[i] < tree.in_order()[j],
            forall|v: i64| #[trigger] tree.in_order().contains(v) <==> tree@.contains(v),
    {
        Node::lemma_in_order_props(tree.spec_root());
    }
}

} // verus!
