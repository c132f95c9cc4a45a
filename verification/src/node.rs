//! Structural primitives of the binary search tree.
//!
//! A node owns its value and its optional children, and records in a
//! direction tag which child slot of its parent it occupies. The tag lets a
//! caller identify a node's slot without re-searching, and every operation
//! that attaches, detaches or replaces a child keeps the tag of the moved
//! node consistent with its new position: a node installed as a left child
//! is tagged `Left`, a detached node is an orphan tagged `NoParent`.
//!
//! The node operations only manipulate links; search and deletion policy
//! live in [`crate::tree`].

use vstd::multiset::Multiset;
use vstd::prelude::*;

verus! {

/// Which child slot of its parent a node occupies; `NoParent` marks a root
/// or an orphan.
#[derive(Clone, Copy, Debug, PartialEq, Eq, Structural)]
pub enum DiretionFromParent {
    Left,
    Right,
    NoParent,
}

/// A tree node: it owns its value and its children and records the slot it
/// occupies in its parent.
#[verifier::ext_equal]
pub struct Node {
    pub value: i64,
    pub dir_to_parent: DiretionFromParent,
    pub left: Option<Box<Node>>,
    pub right: Option<Box<Node>>,
}

impl Node {
    /// The value stored at this node.
    pub open spec fn spec_value(self) -> i64 {
        self.value
    }

    /// The direction tag recorded at this node.
    pub open spec fn spec_dir(self) -> DiretionFromParent {
        self.dir_to_parent
    }

    /// The left child slot of this node.
    pub open spec fn spec_left(self) -> Option<Box<Node>> {
        self.left
    }

    /// The right child slot of this node.
    pub open spec fn spec_right(self) -> Option<Box<Node>> {
        self.right
    }

    /// A leaf node holding `value`, tagged with `dir`.
    pub open spec fn leaf_spec(value: i64, dir: DiretionFromParent) -> Node {
        Node { value, dir_to_parent: dir, left: None, right: None }
    }

    /// `n` with its direction tag replaced by `dir`; nothing else changes.
    pub open spec fn with_direction(n: Node, dir: DiretionFromParent) -> Node {
        Node { dir_to_parent: dir, ..n }
    }

    /// The set of values stored in the subtree rooted at this node.
    pub closed spec fn as_set(self) -> Set<i64>
        decreases self,
    {
        Node::opt_set(self.left).union(Node::opt_set(self.right)).insert(self.value)
    }

    /// The set of values stored in an optional subtree.
    pub open spec fn opt_set(slot: Option<Box<Node>>) -> Set<i64>
        decreases slot,
    {
        match slot {
            None => Set::empty(),
            Some(n) => n.as_set(),
        }
    }

    /// Well-formedness of the subtree rooted at this node: values in the
    /// left subtree are smaller than the node's value, values in the right
    /// subtree are greater, both subtrees are themselves well-formed, and
    /// each child's direction tag names the slot it occupies.
    pub closed spec fn wf(self) -> bool
        decreases self,
    {
        &&& (forall|v: i64| Node::opt_set(self.left).contains(v) ==> v < self.value)
        &&& (forall|v: i64| Node::opt_set(self.right).contains(v) ==> v > self.value)
        &&& Node::opt_wf(self.left)
        &&& Node::opt_wf(self.right)
        &&& (match self.left {
            Some(l) => l.dir_to_parent == DiretionFromParent::Left,
            None => true,
        })
        &&& (match self.right {
            Some(r) => r.dir_to_parent == DiretionFromParent::Right,
            None => true,
        })
    }

    /// Well-formedness of an optional subtree.
    pub open spec fn opt_wf(slot: Option<Box<Node>>) -> bool
        decreases slot,
    {
        match slot {
            None => true,
            Some(n) => n.wf(),
        }
    }

    /// The in-order sequence of a subtree: left subtree, the node's own
    /// value, right subtree.
    pub closed spec fn in_order(self) -> Seq<i64>
        decreases self,
    {
        Node::opt_in_order(self.left) + seq![self.value] + Node::opt_in_order(self.right)
    }

    /// The in-order sequence of an optional subtree.
    pub open spec fn opt_in_order(slot: Option<Box<Node>>) -> Seq<i64>
        decreases slot,
    {
        match slot {
            None => Seq::empty(),
            Some(n) => n.in_order(),
        }
    }

    /// The values of a subtree counted with multiplicity.
    pub closed spec fn as_mset(self) -> Multiset<i64>
        decreases self,
    {
        Node::opt_mset(self.left).add(Node::opt_mset(self.right)).insert(self.value)
    }

    /// The values of an optional subtree counted with multiplicity.
    pub open spec fn opt_mset(slot: Option<Box<Node>>) -> Multiset<i64>
        decreases slot,
    {
        match slot {
            None => Multiset::empty(),
            Some(n) => n.as_mset(),
        }
    }

    /// The multiset of a subtree, written out over the node's slots.
    pub proof fn lemma_as_mset_unfold(n: Node)
        ensures
            n.as_mset() == Node::opt_mset(n.spec_left()).add(Node::opt_mset(n.spec_right())).insert(
                n.spec_value(),
            ),
    {
    }

    /// The set of a subtree, written out over the node's slots.
    proof fn lemma_as_set_unfold(n: Node)
        ensures
            n.as_set() == Node::opt_set(n.spec_left()).union(Node::opt_set(n.spec_right())).insert(
                n.spec_value(),
            ),
    {
    }

    /// Retagging a node touches neither its value set nor its
    /// well-formedness: both ignore the node's own direction.
    proof fn lemma_with_direction_wf(n: Node, dir: DiretionFromParent)
        ensures
            Node::with_direction(n, dir).as_set() == n.as_set(),
            Node::with_direction(n, dir).wf() == n.wf(),
            Node::with_direction(n, dir).spec_left() == n.spec_left(),
            Node::with_direction(n, dir).spec_right() == n.spec_right(),
            Node::with_direction(n, dir).spec_value() == n.spec_value(),
            Node::with_direction(n, dir).spec_dir() == dir,
    {
        let m = Node::with_direction(n, dir);
        Self::lemma_as_set_unfold(n);
        Self::lemma_as_set_unfold(m);
        assert(m.as_set() =~= n.as_set());
        if n.wf() {
            assert(m.wf());
        }
        if m.wf() {
            assert(n.wf());
        }
    }
}

impl Node {
    /// A fresh node holding `new_value`: a leaf with no parent.
    pub fn new(new_value: i64) -> (node: Node)
        ensures
            node == Node::leaf_spec(new_value, DiretionFromParent::NoParent),
            node.wf(),
            node.as_set() == Set::empty().insert(new_value),
            node.spec_value() == new_value,
            node.spec_dir() == DiretionFromParent::NoParent,
    {
        let node = Node {
            value: new_value,
            dir_to_parent: DiretionFromParent::NoParent,
            left: None,
            right: None,
        };
        proof {
            assert(node.as_set() =~= Set::empty().insert(new_value));
        }
        node
    }

    /// The node's value as an independently owned copy.
    pub fn get_shared_value(&self) -> (value: i64)
        ensures
            value == self.spec_value(),
    {
        self.value
    }

    /// Read-only access to the node's value.
    pub fn get_value_ref(&self) -> (value: &i64)
        ensures
            *value == self.spec_value(),
    {
        &self.value
    }

    /// Which child slot of its parent this node occupies.
    pub fn get_direction_from_parent(&self) -> (dir: DiretionFromParent)
        ensures
            dir == self.spec_dir(),
    {
        self.dir_to_parent
    }

    /// The left child, if any.
    pub fn get_left_child_shared(&self) -> (child: Option<&Node>)
        ensures
            match child {
                None => self.spec_left().is_none(),
                Some(c) => self.spec_left().is_some() && *c == *self.spec_left().unwrap(),
            },
    {
        match &self.left {
            None => None,
            Some(boxed) => Some(&**boxed),
        }
    }

    /// The right child, if any.
    pub fn get_right_child_shared(&self) -> (child: Option<&Node>)
        ensures
            match child {
                None => self.spec_right().is_none(),
                Some(c) => self.spec_right().is_some() && *c == *self.spec_right().unwrap(),
            },
    {
        match &self.right {
            None => None,
            Some(boxed) => Some(&**boxed),
        }
    }

    /// Whether this node has a left and a right child.
    pub fn left_right_taken(&self) -> (taken: (bool, bool))
        ensures
            taken.0 == self.spec_left().is_some(),
            taken.1 == self.spec_right().is_some(),
    {
        (self.left.is_some(), self.right.is_some())
    }

    /// Records in `child` which slot of its parent it now occupies.
    fn set_direction(child: &mut Node, dir: DiretionFromParent)
        ensures
            *final(child) == Node::with_direction(*old(child), dir),
    {
        child.dir_to_parent = dir;
    }

    /// Creates a new leaf holding `left_value` and installs it as the left
    /// child of `parent`, tagged `Left`.
    pub fn spawn_left_child(parent: &mut Node, left_value: i64)
        ensures
            final(parent).spec_left().is_some(),
            *final(parent).spec_left().unwrap() == Node::leaf_spec(
                left_value,
                DiretionFromParent::Left,
            ),
            final(parent).spec_right() == old(parent).spec_right(),
            final(parent).spec_value() == old(parent).spec_value(),
            final(parent).spec_dir() == old(parent).spec_dir(),
    {
        let mut left_child = Node::new(left_value);
        Self::set_direction(&mut left_child, DiretionFromParent::Left);
        parent.left = Some(Box::new(left_child));
    }

    /// Creates a new leaf holding `right_value` and installs it as the
    /// right child of `parent`, tagged `Right`.
    pub fn spawn_right_child(parent: &mut Node, right_value: i64)
        ensures
            final(parent).spec_right().is_some(),
            *final(parent).spec_right().unwrap() == Node::leaf_spec(
                right_value,
                DiretionFromParent::Right,
            ),
            final(parent).spec_left() == old(parent).spec_left(),
            final(parent).spec_value() == old(parent).spec_value(),
            final(parent).spec_dir() == old(parent).spec_dir(),
    {
        let mut right_child = Node::new(right_value);
        Self::set_direction(&mut right_child, DiretionFromParent::Right);
        parent.right = Some(Box::new(right_child));
    }

    /// Empties a child slot; the removed child comes back as an orphan,
    /// tagged `NoParent`.
    fn take_child(child_to_take: &mut Option<Box<Node>>) -> (orphan: Option<Box<Node>>)
        ensures
            final(child_to_take).is_none(),
            orphan.is_some() == old(child_to_take).is_some(),
            orphan.is_some() ==> *orphan.unwrap() == Node::with_direction(
                *old(child_to_take).unwrap(),
                DiretionFromParent::NoParent,
            ),
    {
        match child_to_take.take() {
            None => None,
            Some(mut boxed) => {
                Self::set_direction(&mut *boxed, DiretionFromParent::NoParent);
                Some(boxed)
            },
        }
    }

    /// Detaches and returns the left child of `parent` as an orphan; `None`
    /// if there is no left child.
    pub fn take_left_child(parent: &mut Node) -> (orphan: Option<Box<Node>>)
        ensures
            final(parent).spec_left().is_none(),
            final(parent).spec_right() == old(parent).spec_right(),
            final(parent).spec_value() == old(parent).spec_value(),
            final(parent).spec_dir() == old(parent).spec_dir(),
            orphan.is_some() == old(parent).spec_left().is_some(),
            orphan.is_some() ==> *orphan.unwrap() == Node::with_direction(
                *old(parent).spec_left().unwrap(),
                DiretionFromParent::NoParent,
            ),
    {
        Self::take_child(&mut parent.left)
    }

    /// Detaches and returns the right child of `parent` as an orphan;
    /// `None` if there is no right child.
    pub fn take_right_child(parent: &mut Node) -> (orphan: Option<Box<Node>>)
        ensures
            final(parent).spec_right().is_none(),
            final(parent).spec_left() == old(parent).spec_left(),
            final(parent).spec_value() == old(parent).spec_value(),
            final(parent).spec_dir() == old(parent).spec_dir(),
            orphan.is_some() == old(parent).spec_right().is_some(),
            orphan.is_some() ==> *orphan.unwrap() == Node::with_direction(
                *old(parent).spec_right().unwrap(),
                DiretionFromParent::NoParent,
            ),
    {
        Self::take_child(&mut parent.right)
    }

    /// Inserts `new_value` into the subtree rooted at this node, descending
    /// left or right by comparison and spawning a leaf at the first empty
    /// slot in the required direction. Returns `false`, and leaves the
    /// subtree untouched, if the value is already present.
    pub(crate) fn insert(&mut self, new_value: i64) -> (added: bool)
        requires
            old(self).wf(),
        ensures
            final(self).wf(),
            final(self).as_set() == old(self).as_set().insert(new_value),
            added == !old(self).as_set().contains(new_value),
            !added ==> *final(self) == *old(self),
            final(self).spec_value() == old(self).spec_value(),
            final(self).spec_dir() == old(self).spec_dir(),
        decreases *old(self),
    {
        if new_value == self.value {
            proof {
                assert(self.as_set() =~= self.as_set().insert(new_value));
            }
            false
        } else if new_value < self.value {
            let added = match self.left.take() {
                None => {
                    Self::spawn_left_child(self, new_value);
                    true
                },
                Some(mut l) => {
                    let added = (&mut *l).insert(new_value);
                    self.left = Some(l);
                    added
                },
            };
            proof {
                assert(!Node::opt_set(old(self).spec_right()).contains(new_value));
                assert(Node::opt_set(self.spec_left()) =~= Node::opt_set(
                    old(self).spec_left(),
                ).insert(new_value));
                assert(self.as_set() =~= old(self).as_set().insert(new_value));
                assert forall|v: i64| Node::opt_set(self.spec_left()).contains(v) implies v
                    < self.spec_value() by {
                    if v != new_value {
                        assert(Node::opt_set(old(self).spec_left()).contains(v));
                    }
                }
                assert(forall|v: i64|
                    Node::opt_set(self.spec_right()).contains(v) ==> v > self.spec_value());
                assert(Node::opt_wf(self.spec_left()));
                assert(Node::opt_wf(self.spec_right()));
                assert(match self.spec_left() {
                    Some(l) => l.spec_dir() == DiretionFromParent::Left,
                    None => true,
                });
                assert(match self.spec_right() {
                    Some(r) => r.spec_dir() == DiretionFromParent::Right,
                    None => true,
                });
                assert(self.wf());
                if !added {
                    assert(*self =~= *old(self));
                }
            }
            added
        } else {
            let added = match self.right.take() {
                None => {
                    Self::spawn_right_child(self, new_value);
                    true
                },
                Some(mut r) => {
                    let added = (&mut *r).insert(new_value);
                    self.right = Some(r);
                    added
                },
            };
            proof {
                assert(!Node::opt_set(old(self).spec_left()).contains(new_value));
                assert(Node::opt_set(self.spec_right()) =~= Node::opt_set(
                    old(self).spec_right(),
                ).insert(new_value));
                assert(self.as_set() =~= old(self).as_set().insert(new_value));
                assert forall|v: i64| Node::opt_set(self.spec_right()).contains(v) implies v
                    > self.spec_value() by {
                    if v != new_value {
                        assert(Node::opt_set(old(self).spec_right()).contains(v));
                    }
                }
                assert(forall|v: i64|
                    Node::opt_set(self.spec_left()).contains(v) ==> v < self.spec_value());
                assert(Node::opt_wf(self.spec_left()));
                assert(Node::opt_wf(self.spec_right()));
                assert(match self.spec_left() {
                    Some(l) => l.spec_dir() == DiretionFromParent::Left,
                    None => true,
                });
                assert(match self.spec_right() {
                    Some(r) => r.spec_dir() == DiretionFromParent::Right,
                    None => true,
                });
                assert(self.wf());
                if !added {
                    assert(*self =~= *old(self));
                }
            }
            added
        }
    }

    /// Whether `searched` is stored in the subtree rooted at this node.
    pub(crate) fn contains_value(&self, searched: i64) -> (found: bool)
        requires
            self.wf(),
        ensures
            found == self.as_set().contains(searched),
        decreases *self,
    {
        if searched == self.value {
            true
        } else if searched < self.value {
            proof {
                assert(!Node::opt_set(self.spec_right()).contains(searched));
            }
            match &self.left {
                None => false,
                Some(l) => (&**l).contains_value(searched),
            }
        } else {
            proof {
                assert(!Node::opt_set(self.spec_left()).contains(searched));
            }
            match &self.right {
                None => false,
                Some(r) => (&**r).contains_value(searched),
            }
        }
    }

    /// The node reached by following right children from `n` to the end.
    pub closed spec fn rightmost_spec(n: Node) -> Node
        decreases n,
    {
        match n.right {
            None => n,
            Some(r) => Node::rightmost_spec(*r),
        }
    }

    /// Recursive descent along right children.
    fn rightmost_node(n: &Node) -> (greatest: &Node)
        ensures
            *greatest == Node::rightmost_spec(*n),
        decreases *n,
    {
        match &n.right {
            None => n,
            Some(r) => Self::rightmost_node(&**r),
        }
    }

    /// Returns the node holding the greatest value under `to_search_from`,
    /// found by following right children from its right child on; `None` if
    /// there is no right child. The search never returns `to_search_from`
    /// itself.
    pub fn find_greatest_node_from(to_search_from: &Node) -> (greatest: Option<&Node>)
        ensures
            greatest.is_some() == to_search_from.spec_right().is_some(),
            greatest.is_some() ==> *greatest.unwrap() == Node::rightmost_spec(
                *to_search_from.spec_right().unwrap(),
            ),
            to_search_from.wf() && greatest.is_some() ==> to_search_from.as_set().contains(
                greatest.unwrap().spec_value(),
            ),
            to_search_from.wf() && greatest.is_some() ==> (forall|v: i64|
                to_search_from.as_set().contains(v) ==> v <= greatest.unwrap().spec_value()),
    {
        let greatest = match &to_search_from.right {
            None => None,
            Some(r) => Some(Self::rightmost_node(&**r)),
        };
        proof {
            if to_search_from.wf() && to_search_from.spec_right().is_some() {
                let r = *to_search_from.spec_right().unwrap();
                Self::lemma_rightmost_is_greatest(r);
                Self::lemma_as_set_unfold(*to_search_from);
                assert(to_search_from.spec_value() < Node::rightmost_spec(r).spec_value());
                assert forall|v: i64|
                    to_search_from.as_set().contains(v) implies v <= Node::rightmost_spec(
                    r,
                ).spec_value() by {
                    if Node::opt_set(to_search_from.spec_left()).contains(v) {
                        assert(v < to_search_from.spec_value());
                    }
                }
            }
        }
        greatest
    }

    /// In a well-formed subtree the rightmost node holds the greatest value.
    proof fn lemma_rightmost_is_greatest(n: Node)
        requires
            n.wf(),
        ensures
            n.as_set().contains(Node::rightmost_spec(n).spec_value()),
            forall|v: i64| n.as_set().contains(v) ==> v <= Node::rightmost_spec(n).spec_value(),
        decreases n,
    {
        Self::lemma_as_set_unfold(n);
        match n.right {
            None => {
                assert forall|v: i64| n.as_set().contains(v) implies v <= Node::rightmost_spec(
                    n,
                ).spec_value() by {
                    if Node::opt_set(n.spec_left()).contains(v) {
                        assert(v < n.spec_value());
                    }
                }
            },
            Some(r) => {
                Self::lemma_rightmost_is_greatest(*r);
                assert(Node::opt_set(n.spec_right()).contains(
                    Node::rightmost_spec(*r).spec_value(),
                ));
                assert forall|v: i64| n.as_set().contains(v) implies v <= Node::rightmost_spec(
                    n,
                ).spec_value() by {
                    if Node::opt_set(n.spec_left()).contains(v) {
                        assert(v < n.spec_value());
                    }
                }
            },
        }
    }

    /// Detaches the rightmost node of the subtree in `slot`, a right child
    /// slot, promoting the detached node's left child, if any, into the
    /// vacated position. Returns the detached node as an orphan leaf.
    fn extract_rightmost(slot: &mut Option<Box<Node>>) -> (greatest: Box<Node>)
        requires
            old(slot).is_some(),
            Node::opt_wf(*old(slot)),
            old(slot).unwrap().spec_dir() == DiretionFromParent::Right,
        ensures
            Node::opt_wf(*final(slot)),
            Node::opt_set(*final(slot)) == Node::opt_set(*old(slot)).remove(
                (*greatest).spec_value(),
            ),
            Node::opt_set(*old(slot)).contains((*greatest).spec_value()),
            forall|v: i64|
                Node::opt_set(*old(slot)).contains(v) ==> v <= (*greatest).spec_value(),
            (*greatest).spec_left().is_none(),
            (*greatest).spec_right().is_none(),
            (*greatest).spec_dir() == DiretionFromParent::NoParent,
            final(slot).is_some() ==> final(slot).unwrap().spec_dir()
                == DiretionFromParent::Right,
        decreases *old(slot),
    {
        let mut boxed = slot.take().unwrap();
        if boxed.right.is_some() {
            let greatest = Self::extract_rightmost(&mut boxed.right);
            proof {
                assert(Node::opt_set(boxed.spec_right()) =~= Node::opt_set(
                    old(slot).unwrap().spec_right(),
                ).remove((*greatest).spec_value()));
                assert(boxed.wf());
                Self::lemma_as_set_unfold(*old(slot).unwrap());
                Self::lemma_as_set_unfold(*boxed);
                assert(boxed.spec_value() < (*greatest).spec_value());
                assert(!Node::opt_set(boxed.spec_left()).contains((*greatest).spec_value()));
                assert(boxed.as_set() =~= Node::opt_set(*old(slot)).remove(
                    (*greatest).spec_value(),
                ));
            }
            *slot = Some(boxed);
            greatest
        } else {
            match Self::take_left_child(&mut *boxed) {
                Some(mut promoted) => {
                    Self::set_direction(&mut *promoted, DiretionFromParent::Right);
                    proof {
                        assert(old(slot).unwrap().wf());
                        assert((*old(slot).unwrap().spec_left().unwrap()).wf());
                        Self::lemma_with_direction_wf(
                            *old(slot).unwrap().spec_left().unwrap(),
                            DiretionFromParent::NoParent,
                        );
                        Self::lemma_with_direction_wf(
                            Node::with_direction(
                                *old(slot).unwrap().spec_left().unwrap(),
                                DiretionFromParent::NoParent,
                            ),
                            DiretionFromParent::Right,
                        );
                        assert((*promoted).wf());
                        Self::lemma_as_set_unfold(*old(slot).unwrap());
                        Self::lemma_as_set_unfold(*promoted);
                        Self::lemma_as_set_unfold(*old(slot).unwrap().spec_left().unwrap());
                        assert(!Node::opt_set(old(slot).unwrap().spec_left()).contains(
                            old(slot).unwrap().spec_value(),
                        ));
                        assert((*promoted).as_set() =~= Node::opt_set(*old(slot)).remove(
                            boxed.spec_value(),
                        ));
                    }
                    *slot = Some(promoted);
                },
                None => {
                    proof {
                        Self::lemma_as_set_unfold(*old(slot).unwrap());
                        assert(Node::opt_set(*slot) =~= Node::opt_set(*old(slot)).remove(
                            boxed.spec_value(),
                        ));
                    }
                },
            }
            Self::set_direction(&mut *boxed, DiretionFromParent::NoParent);
            boxed
        }
    }

    /// Detaches the greatest right-descendant of `to_search_from` — the
    /// rightmost node below it — promoting the detached node's left child
    /// into the vacated slot, and returns it as an orphan leaf. Returns
    /// `None`, leaving the node untouched, if there is no right child: the
    /// search never considers `to_search_from` itself.
    pub fn extract_greatest_node_from(to_search_from: &mut Node) -> (greatest: Option<Box<Node>>)
        requires
            old(to_search_from).wf(),
        ensures
            final(to_search_from).wf(),
            final(to_search_from).spec_value() == old(to_search_from).spec_value(),
            final(to_search_from).spec_dir() == old(to_search_from).spec_dir(),
            greatest.is_some() == old(to_search_from).spec_right().is_some(),
            greatest.is_none() ==> *final(to_search_from) == *old(to_search_from),
            greatest.is_some() ==> (*greatest.unwrap()).spec_left().is_none(),
            greatest.is_some() ==> (*greatest.unwrap()).spec_right().is_none(),
            greatest.is_some() ==> (*greatest.unwrap()).spec_dir()
                == DiretionFromParent::NoParent,
            greatest.is_some() ==> old(to_search_from).as_set().contains(
                (*greatest.unwrap()).spec_value(),
            ),
            greatest.is_some() ==> (*greatest.unwrap()).spec_value() != old(
                to_search_from,
            ).spec_value(),
            greatest.is_some() ==> (forall|v: i64|
                old(to_search_from).as_set().contains(v) ==> v <= (*greatest.unwrap()).spec_value()),
            greatest.is_some() ==> final(to_search_from).as_set() == old(
                to_search_from,
            ).as_set().remove((*greatest.unwrap()).spec_value()),
    {
        if to_search_from.right.is_some() {
            let greatest = Self::extract_rightmost(&mut to_search_from.right);
            proof {
                assert forall|v: i64|
                    Node::opt_set(to_search_from.spec_right()).contains(v) implies v
                    > to_search_from.spec_value() by {
                    assert(Node::opt_set(old(to_search_from).spec_right()).contains(v));
                }
                assert(to_search_from.wf());
                assert(old(to_search_from).spec_value() < (*greatest).spec_value());
                assert forall|v: i64|
                    old(to_search_from).as_set().contains(v) implies v
                    <= (*greatest).spec_value() by {
                    if Node::opt_set(old(to_search_from).spec_left()).contains(v) {
                        assert(v < old(to_search_from).spec_value());
                    }
                }
                Self::lemma_as_set_unfold(*old(to_search_from));
                Self::lemma_as_set_unfold(*to_search_from);
                assert(!Node::opt_set(old(to_search_from).spec_left()).contains(
                    (*greatest).spec_value(),
                ));
                assert(to_search_from.as_set() =~= old(to_search_from).as_set().remove(
                    (*greatest).spec_value(),
                ));
            }
            Some(greatest)
        } else {
            None
        }
    }

    /// Joins the two detached subtrees of a deleted node under the node's
    /// in-order predecessor: the greatest node of the detached left subtree
    /// is extracted (or is that subtree's root, when the root has no right
    /// descendant) and takes over what is left of the left subtree as its
    /// left child and the right subtree as its right child. `pivot` is the
    /// deleted value, strictly between the two subtrees.
    fn join_under_predecessor(
        left_detached: Box<Node>,
        right_detached: Box<Node>,
        dir: DiretionFromParent,
        pivot: Ghost<i64>,
    ) -> (joined: Box<Node>)
        requires
            (*left_detached).wf(),
            (*right_detached).wf(),
            forall|v: i64| (*left_detached).as_set().contains(v) ==> v < pivot@,
            forall|v: i64| (*right_detached).as_set().contains(v) ==> v > pivot@,
        ensures
            (*joined).wf(),
            (*joined).as_set() == (*left_detached).as_set().union((*right_detached).as_set()),
            (*joined).spec_dir() == dir,
    {
        let ghost l_init = *left_detached;
        let ghost r_init = *right_detached;
        let (_, left_has_right) = left_detached.left_right_taken();
        let mut replacement: Box<Node>;
        if left_has_right {
            let mut remainder = left_detached;
            let greatest = Node::extract_greatest_node_from(&mut *remainder).unwrap();
            replacement = greatest;
            proof {
                Self::lemma_with_direction_wf(*remainder, DiretionFromParent::Left);
            }
            let displaced = Node::replace_left_child_with(&mut *replacement, remainder);
            proof {
                assert(displaced.is_none());
                Self::lemma_as_set_unfold(*replacement);
                assert forall|v: i64|
                    Node::opt_set((*replacement).spec_left()).contains(v) implies v
                    < (*replacement).spec_value() by {
                    assert(l_init.as_set().contains(v));
                }
                assert((*replacement).wf());
                assert((*replacement).as_set() =~= l_init.as_set());
            }
        } else {
            replacement = left_detached;
            proof {
                Self::lemma_as_set_unfold(*replacement);
                assert forall|v: i64| l_init.as_set().contains(v) implies v
                    <= (*replacement).spec_value() by {
                    if Node::opt_set(l_init.spec_left()).contains(v) {
                        assert(v < l_init.spec_value());
                    }
                }
            }
        }
        proof {
            Self::lemma_with_direction_wf(*right_detached, DiretionFromParent::Right);
            Self::lemma_as_set_unfold(*replacement);
        }
        let ghost mid = *replacement;
        let displaced_right = Node::replace_right_child_with(&mut *replacement, right_detached);
        Self::set_direction(&mut *replacement, dir);
        proof {
            assert(displaced_right.is_none());
            assert((*replacement).spec_value() == mid.spec_value());
            assert((*replacement).spec_left() == mid.spec_left());
            assert(l_init.as_set().contains(mid.spec_value()));
            assert(mid.spec_value() < pivot@);
            assert forall|v: i64|
                Node::opt_set((*replacement).spec_right()).contains(v) implies v
                > (*replacement).spec_value() by {
                assert(r_init.as_set().contains(v));
            }
            assert forall|v: i64|
                Node::opt_set((*replacement).spec_left()).contains(v) implies v
                < (*replacement).spec_value() by {
                assert(Node::opt_set(mid.spec_left()).contains(v));
            }
            assert((*replacement).wf());
            Self::lemma_as_set_unfold(*replacement);
            Self::lemma_as_set_unfold(mid);
            assert((*replacement).as_set() =~= l_init.as_set().union(r_init.as_set()));
        }
        replacement
    }

    /// Appends the in-order sequence of the subtree in `slot` to `out`.
    pub(crate) fn push_in_order(slot: &Option<Box<Node>>, out: &mut Vec<i64>)
        ensures
            final(out)@ == old(out)@ + Node::opt_in_order(*slot),
        decreases *slot,
    {
        match slot {
            None => {
                proof {
                    assert(out@ =~= old(out)@ + Node::opt_in_order(*slot));
                }
            },
            Some(n) => {
                Self::push_in_order(&n.left, out);
                out.push(n.get_shared_value());
                Self::push_in_order(&n.right, out);
                proof {
                    assert(out@ =~= old(out)@ + Node::opt_in_order(*slot));
                }
            },
        }
    }

    /// Removes `to_delete` from the subtree in `slot`, if present. A leaf
    /// is detached; a node with one child is replaced by that child; a node
    /// with two children is replaced by its in-order predecessor, the
    /// greatest node of its detached left subtree, which takes over both
    /// detached subtrees as its children. Whatever is installed in the
    /// vacated slot takes over the deleted node's direction tag.
    pub(crate) fn delete_from_slot(slot: &mut Option<Box<Node>>, to_delete: i64) -> (removed:
        bool)
        requires
            Node::opt_wf(*old(slot)),
        ensures
            Node::opt_wf(*final(slot)),
            Node::opt_set(*final(slot)) == Node::opt_set(*old(slot)).remove(to_delete),
            removed == Node::opt_set(*old(slot)).contains(to_delete),
            !removed ==> *final(slot) == *old(slot),
            final(slot).is_some() ==> old(slot).is_some() && final(slot).unwrap().spec_dir()
                == old(slot).unwrap().spec_dir(),
        decreases *old(slot),
    {
        match slot.take() {
            None => {
                proof {
                    assert(Node::opt_set(*slot) =~= Node::opt_set(*old(slot)).remove(to_delete));
                }
                false
            },
            Some(mut boxed) => {
                if to_delete < boxed.value {
                    let removed = Self::delete_from_slot(&mut boxed.left, to_delete);
                    proof {
                        assert(!Node::opt_set(old(slot).unwrap().spec_right()).contains(
                            to_delete,
                        ));
                        Self::lemma_as_set_unfold(*old(slot).unwrap());
                        Self::lemma_as_set_unfold(*boxed);
                        assert forall|v: i64|
                            Node::opt_set(boxed.spec_left()).contains(v) implies v
                            < boxed.spec_value() by {
                            assert(Node::opt_set(old(slot).unwrap().spec_left()).contains(v));
                        }
                        assert(boxed.wf());
                        assert(boxed.as_set() =~= Node::opt_set(*old(slot)).remove(to_delete));
                        if !removed {
                            assert(*boxed =~= *old(slot).unwrap());
                        }
                    }
                    *slot = Some(boxed);
                    removed
                } else if to_delete > boxed.value {
                    let removed = Self::delete_from_slot(&mut boxed.right, to_delete);
                    proof {
                        assert(!Node::opt_set(old(slot).unwrap().spec_left()).contains(
                            to_delete,
                        ));
                        Self::lemma_as_set_unfold(*old(slot).unwrap());
                        Self::lemma_as_set_unfold(*boxed);
                        assert forall|v: i64|
                            Node::opt_set(boxed.spec_right()).contains(v) implies v
                            > boxed.spec_value() by {
                            assert(Node::opt_set(old(slot).unwrap().spec_right()).contains(v));
                        }
                        assert(boxed.wf());
                        assert(boxed.as_set() =~= Node::opt_set(*old(slot)).remove(to_delete));
                        if !removed {
                            assert(*boxed =~= *old(slot).unwrap());
                        }
                    }
                    *slot = Some(boxed);
                    removed
                } else {
                    let (has_left, has_right) = boxed.left_right_taken();
                    let dir = boxed.get_direction_from_parent();
                    if !has_left && !has_right {
                        proof {
                            Self::lemma_as_set_unfold(*old(slot).unwrap());
                            assert(Node::opt_set(*slot) =~= Node::opt_set(*old(slot)).remove(
                                to_delete,
                            ));
                        }
                    } else if !has_left {
                        let mut child = Node::take_right_child(&mut *boxed).unwrap();
                        Self::set_direction(&mut *child, dir);
                        proof {
                            assert(old(slot).unwrap().wf());
                            Self::lemma_with_direction_wf(
                                *old(slot).unwrap().spec_right().unwrap(),
                                DiretionFromParent::NoParent,
                            );
                            Self::lemma_with_direction_wf(
                                Node::with_direction(
                                    *old(slot).unwrap().spec_right().unwrap(),
                                    DiretionFromParent::NoParent,
                                ),
                                dir,
                            );
                            assert((*child).wf());
                            Self::lemma_as_set_unfold(*old(slot).unwrap());
                            assert(!Node::opt_set(old(slot).unwrap().spec_right()).contains(
                                to_delete,
                            ));
                            assert((*child).as_set() =~= Node::opt_set(*old(slot)).remove(
                                to_delete,
                            ));
                        }
                        *slot = Some(child);
                    } else if !has_right {
                        let mut child = Node::take_left_child(&mut *boxed).unwrap();
                        Self::set_direction(&mut *child, dir);
                        proof {
                            assert(old(slot).unwrap().wf());
                            Self::lemma_with_direction_wf(
                                *old(slot).unwrap().spec_left().unwrap(),
                                DiretionFromParent::NoParent,
                            );
                            Self::lemma_with_direction_wf(
                                Node::with_direction(
                                    *old(slot).unwrap().spec_left().unwrap(),
                                    DiretionFromParent::NoParent,
                                ),
                                dir,
                            );
                            assert((*child).wf());
                            Self::lemma_as_set_unfold(*old(slot).unwrap());
                            assert(!Node::opt_set(old(slot).unwrap().spec_left()).contains(
                                to_delete,
                            ));
                            assert((*child).as_set() =~= Node::opt_set(*old(slot)).remove(
                                to_delete,
                            ));
                        }
                        *slot = Some(child);
                    } else {
                        let left_detached = Node::take_left_child(&mut *boxed).unwrap();
                        let right_detached = Node::take_right_child(&mut *boxed).unwrap();
                        let ghost pivot = old(slot).unwrap().spec_value();
                        proof {
                            assert(old(slot).unwrap().wf());
                            Self::lemma_with_direction_wf(
                                *old(slot).unwrap().spec_left().unwrap(),
                                DiretionFromParent::NoParent,
                            );
                            Self::lemma_with_direction_wf(
                                *old(slot).unwrap().spec_right().unwrap(),
                                DiretionFromParent::NoParent,
                            );
                            assert forall|v: i64|
                                (*left_detached).as_set().contains(v) implies v < pivot by {
                                assert(Node::opt_set(old(slot).unwrap().spec_left()).contains(v));
                            }
                            assert forall|v: i64|
                                (*right_detached).as_set().contains(v) implies v > pivot by {
                                assert(Node::opt_set(old(slot).unwrap().spec_right()).contains(v));
                            }
                        }
                        let replacement = Self::join_under_predecessor(
                            left_detached,
                            right_detached,
                            dir,
                            Ghost(pivot),
                        );
                        proof {
                            Self::lemma_as_set_unfold(*old(slot).unwrap());
                            assert((*replacement).as_set() =~= Node::opt_set(*old(slot)).remove(
                                to_delete,
                            ));
                        }
                        *slot = Some(replacement);
                    }
                    true
                }
            },
        }
    }

    /// Installs `new_left_child` as the left child of `parent`, tagged
    /// `Left`, and returns the previously installed child, if any, as an
    /// orphan.
    pub fn replace_left_child_with(parent: &mut Node, new_left_child: Box<Node>) -> (old_child:
        Option<Box<Node>>)
        ensures
            final(parent).spec_left().is_some(),
            *final(parent).spec_left().unwrap() == Node::with_direction(
                *new_left_child,
                DiretionFromParent::Left,
            ),
            final(parent).spec_right() == old(parent).spec_right(),
            final(parent).spec_value() == old(parent).spec_value(),
            final(parent).spec_dir() == old(parent).spec_dir(),
            old_child.is_some() == old(parent).spec_left().is_some(),
            old_child.is_some() ==> *old_child.unwrap() == Node::with_direction(
                *old(parent).spec_left().unwrap(),
                DiretionFromParent::NoParent,
            ),
    {
        let mut incoming = new_left_child;
        Self::set_direction(&mut *incoming, DiretionFromParent::Left);
        let old_child = Self::take_child(&mut parent.left);
        parent.left = Some(incoming);
        old_child
    }

    /// Installs `new_right_child` as the right child of `parent`, tagged
    /// `Right`, and returns the previously installed child, if any, as an
    /// orphan.
    pub fn replace_right_child_with(parent: &mut Node, new_right_child: Box<Node>) -> (old_child:
        Option<Box<Node>>)
        ensures
            final(parent).spec_right().is_some(),
            *final(parent).spec_right().unwrap() == Node::with_direction(
                *new_right_child,
                DiretionFromParent::Right,
            ),
            final(parent).spec_left() == old(parent).spec_left(),
            final(parent).spec_value() == old(parent).spec_value(),
            final(parent).spec_dir() == old(parent).spec_dir(),
            old_child.is_some() == old(parent).spec_right().is_some(),
            old_child.is_some() ==> *old_child.unwrap() == Node::with_direction(
                *old(parent).spec_right().unwrap(),
                DiretionFromParent::NoParent,
            ),
    {
        let mut incoming = new_right_child;
        Self::set_direction(&mut *incoming, DiretionFromParent::Right);
        let old_child = Self::take_child(&mut parent.right);
        parent.right = Some(incoming);
        old_child
    }
}

impl Node {
    /// In a well-formed subtree the in-order sequence is strictly
    /// ascending, and it holds exactly the subtree's values.
    pub proof fn lemma_in_order_props(slot: Option<Box<Node>>)
        requires
            Node::opt_wf(slot),
        ensures
            forall|v: i64| #[trigger] Node::opt_in_order(slot).contains(v) <==> Node::opt_set(
                slot,
            ).contains(v),
            forall|i: int, j: int|
                0 <= i < j < Node::opt_in_order(slot).len() ==> Node::opt_in_order(slot)[i]
                    < Node::opt_in_order(slot)[j],
        decreases slot,
    {
        match slot {
            None => {},
            Some(n) => {
                Self::lemma_in_order_props(n.left);
                Self::lemma_in_order_props(n.right);
                Self::lemma_as_set_unfold(*n);
                let s = Node::opt_in_order(slot);
                let ls = Node::opt_in_order((*n).spec_left());
                let rs = Node::opt_in_order((*n).spec_right());
                let m: int = ls.len() as int;
                assert(s == ls + seq![(*n).spec_value()] + rs);
                assert forall|v: i64| #[trigger] s.contains(v) implies Node::opt_set(
                    slot,
                ).contains(v) by {
                    let i = choose|i: int| 0 <= i < s.len() && s[i] == v;
                    if i < m {
                        assert(ls[i] == v);
                        assert(ls.contains(v));
                    } else if i > m {
                        assert(rs[i - m - 1] == v);
                        assert(rs.contains(v));
                    }
                }
                assert forall|v: i64| Node::opt_set(slot).contains(v) implies s.contains(v) by {
                    if Node::opt_set((*n).spec_left()).contains(v) {
                        assert(ls.contains(v));
                        let i = choose|i: int| 0 <= i < ls.len() && ls[i] == v;
                        assert(s[i] == v);
                    } else if Node::opt_set((*n).spec_right()).contains(v) {
                        assert(rs.contains(v));
                        let i = choose|i: int| 0 <= i < rs.len() && rs[i] == v;
                        assert(s[m + 1 + i] == v);
                    } else {
                        assert(s[m] == v);
                    }
                }
                assert forall|i: int, j: int| 0 <= i < j < s.len() implies s[i] < s[j] by {
                    if i < m {
                        assert(s[i] == ls[i]);
                        assert(ls.contains(ls[i]));
                        assert(s[i] < (*n).spec_value());
                    }
                    if j > m {
                        assert(s[j] == rs[j - m - 1]);
                        assert(rs.contains(rs[j - m - 1]));
                        assert(s[j] > (*n).spec_value());
                    }
                    if i < m && j < m {
                        assert(ls[i] < ls[j]);
                    }
                    if i > m && j > m {
                        assert(rs[i - m - 1] < rs[j - m - 1]);
                    }
                }
            },
        }
    }

    /// In a well-formed subtree every value occurs exactly once: the
    /// multiset view counts each stored value once and nothing else.
    pub proof fn lemma_mset_counts(slot: Option<Box<Node>>)
        requires
            Node::opt_wf(slot),
        ensures
            forall|v: i64| #[trigger] Node::opt_mset(slot).count(v) == (if Node::opt_set(
                slot,
            ).contains(v) {
                1nat
            } else {
                0nat
            }),
        decreases slot,
    {
        match slot {
            None => {},
            Some(n) => {
                Self::lemma_mset_counts(n.left);
                Self::lemma_mset_counts(n.right);
                Self::lemma_as_set_unfold(*n);
                Self::lemma_as_mset_unfold(*n);
                assert forall|v: i64| #[trigger] Node::opt_mset(slot).count(v) == (if Node::opt_set(
                    slot,
                ).contains(v) {
                    1nat
                } else {
                    0nat
                }) by {
                    if v == (*n).spec_value() {
                        assert(!Node::opt_set((*n).spec_left()).contains(v));
                        assert(!Node::opt_set((*n).spec_right()).contains(v));
                    } else if Node::opt_set((*n).spec_left()).contains(v) {
                        assert(v < (*n).spec_value());
                        assert(!Node::opt_set((*n).spec_right()).contains(v));
                    } else if Node::opt_set((*n).spec_right()).contains(v) {
                        assert(v > (*n).spec_value());
                    }
                }
            },
        }
    }
}

} // verus!
