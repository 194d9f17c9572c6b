//! An ordered set of strings stored in an unbalanced binary search tree,
//! with insertion, deletion, membership testing, a size query and a lazy
//! in-order iterator built on an explicit stack.

use vstd::prelude::*;
use crate::order::{
    StrOrd, str_lt, strictly_ascending, compare_strs, lemma_str_lt_irrefl, lemma_str_lt_trans,
    lemma_str_lt_asym,
};

verus! {

/// One stored value together with its two child slots.
#[derive(Debug)]
struct Node {
    value: String,
    left: Link,
    right: Link,
}

/// A slot: either empty or exclusively owning one node.
#[derive(Debug)]
enum Link {
    Empty,
    NonEmpty(Box<Node>),
}

/// An ordered set of unique strings.
#[derive(Debug)]
pub struct Tree {
    root: Link,
}

/// The set of values stored under a slot.
spec fn link_set(l: Link) -> Set<Seq<char>>
    decreases l,
{
    match l {
        Link::Empty => Set::empty(),
        Link::NonEmpty(node) => link_set(node.left).union(link_set(node.right)).insert(
            node.value@,
        ),
    }
}

/// The number of nodes under a slot.
spec fn link_count(l: Link) -> nat
    decreases l,
{
    match l {
        Link::Empty => 0,
        Link::NonEmpty(node) => 1 + link_count(node.left) + link_count(node.right),
    }
}

/// The values under a slot, left subtree first, then the node, then the
/// right subtree.
spec fn link_inorder(l: Link) -> Seq<Seq<char>>
    decreases l,
{
    match l {
        Link::Empty => Seq::empty(),
        Link::NonEmpty(node) => link_inorder(node.left) + seq![node.value@] + link_inorder(
            node.right,
        ),
    }
}

/// The value at the root of an occupied slot.
spec fn link_root_value(l: Link) -> Seq<char> {
    match l {
        Link::Empty => Seq::empty(),
        Link::NonEmpty(node) => node.value@,
    }
}

/// The binary-search-tree ordering invariant: everything to the left of a
/// node is smaller, everything to the right is larger.
spec fn link_wf(l: Link) -> bool
    decreases l,
{
    match l {
        Link::Empty => true,
        Link::NonEmpty(node) => {
            &&& link_wf(node.left)
            &&& link_wf(node.right)
            &&& forall|x: Seq<char>|
                #[trigger] link_set(node.left).contains(x) ==> str_lt(x, node.value@)
            &&& forall|x: Seq<char>|
                #[trigger] link_set(node.right).contains(x) ==> str_lt(node.value@, x)
        },
    }
}

/// Under the ordering invariant the stored set is finite and has exactly one
/// element per node.
proof fn lemma_wf_props(l: Link)
    requires
        link_wf(l),
    ensures
        link_set(l).finite(),
        link_set(l).len() == link_count(l),
    decreases l,
{
    broadcast use vstd::set::group_set_axioms;

    match l {
        Link::Empty => {
            assert(link_set(l) =~= Set::<Seq<char>>::empty());
        }
        Link::NonEmpty(node) => {
            lemma_wf_props(node.left);
            lemma_wf_props(node.right);
            let ls = link_set(node.left);
            let rs = link_set(node.right);
            assert(ls.disjoint(rs)) by {
                assert forall|x: Seq<char>| !(ls.contains(x) && rs.contains(x)) by {
                    if ls.contains(x) && rs.contains(x) {
                        lemma_str_lt_asym(x, node.value@);
                    }
                }
            }
            vstd::set_lib::lemma_set_disjoint_lens(ls, rs);
            assert(ls + rs =~= ls.union(rs));
            if ls.contains(node.value@) {
                lemma_str_lt_irrefl(node.value@);
            }
            if rs.contains(node.value@) {
                lemma_str_lt_irrefl(node.value@);
            }
        }
    }
}

/// Under the ordering invariant, the in-order sequence is strictly
/// ascending, holds exactly the stored values, and has one entry per node.
proof fn lemma_link_inorder_props(l: Link)
    requires
        link_wf(l),
    ensures
        strictly_ascending(link_inorder(l)),
        forall|x: Seq<char>| #[trigger] link_inorder(l).contains(x) == link_set(l).contains(x),
        link_inorder(l).len() == link_count(l),
    decreases l,
{
    broadcast use vstd::seq_lib::lemma_seq_concat_contains_all_elements;

    match l {
        Link::Empty => {}
        Link::NonEmpty(node) => {
            lemma_link_inorder_props(node.left);
            lemma_link_inorder_props(node.right);
            let li = link_inorder(node.left);
            let ri = link_inorder(node.right);
            let v = node.value@;
            let s = link_inorder(l);
            let llen = li.len() as int;
            assert(s == li + seq![v] + ri);
            assert forall|x: Seq<char>| #[trigger] s.contains(x) == link_set(l).contains(x) by {
                let sv = seq![v];
                assert(sv.len() == 1 && sv[0] == v);
                if x == v {
                    assert(sv.contains(x));
                }
                if sv.contains(x) {
                    let k = choose|k: int| 0 <= k < sv.len() && sv[k] == x;
                    assert(x == v);
                }
            }
            assert forall|i: int, j: int| 0 <= i < j < s.len() implies str_lt(s[i], s[j]) by {
                if j < llen {
                    assert(s[i] == li[i] && s[j] == li[j]);
                } else if i < llen && j == llen {
                    assert(s[i] == li[i] && s[j] == v);
                    assert(li.contains(li[i]));
                } else if i < llen && j > llen {
                    assert(s[i] == li[i] && s[j] == ri[j - llen - 1]);
                    assert(li.contains(li[i]));
                    assert(ri.contains(ri[j - llen - 1]));
                    lemma_str_lt_trans(li[i], v, ri[j - llen - 1]);
                } else if i == llen {
                    assert(s[i] == v && s[j] == ri[j - llen - 1]);
                    assert(ri.contains(ri[j - llen - 1]));
                } else {
                    assert(s[i] == ri[i - llen - 1] && s[j] == ri[j - llen - 1]);
                }
            }
        }
    }
}

impl Node {
    /// A node with no children.
    fn is_leaf(&self) -> (r: bool)
        ensures
            r == (self.left is Empty && self.right is Empty),
    {
        self.left.empty_tree() && self.right.empty_tree()
    }

    /// Whether the left slot holds a node.
    fn has_left_child(&self) -> (r: bool)
        ensures
            r == !(self.left is Empty),
    {
        !self.left.empty_tree()
    }

    /// Whether the right slot holds a node.
    fn has_right_child(&self) -> (r: bool)
        ensures
            r == !(self.right is Empty),
    {
        !self.right.empty_tree()
    }
}

impl Link {
    /// Moves the slot's contents out, leaving the slot empty.
    fn take(&mut self) -> (r: Link)
        ensures
            r == *old(self),
            *final(self) is Empty,
    {
        let mut t = Link::Empty;
        core::mem::swap(self, &mut t);
        t
    }

    /// Whether the slot is empty.
    fn empty_tree(&self) -> (r: bool)
        ensures
            r == (*self is Empty),
    {
        match self {
            Link::Empty => true,
            _ => false,
        }
    }

    /// Number of nodes under the slot, by full traversal.
    fn size(&self) -> (n: usize)
        requires
            link_count(*self) <= usize::MAX,
        ensures
            n as nat == link_count(*self),
        decreases *self,
    {
        match self {
            Link::Empty => 0,
            Link::NonEmpty(node) => {
                let ls: usize = node.left.size();
                let rs: usize = node.right.size();
                1 + ls + rs
            }
        }
    }

    /// Whether a value equal to `value` is stored under the slot.
    fn contains(&self, value: &String) -> (r: bool)
        requires
            link_wf(*self),
        ensures
            r == link_set(*self).contains(value@),
        decreases *self,
    {
        match self {
            Link::Empty => false,
            Link::NonEmpty(node) => {
                match compare_strs(value.as_str(), node.value.as_str()) {
                    StrOrd::Equal => true,
                    StrOrd::Less => {
                        let r = node.left.contains(value);
                        proof {
                            if link_set(node.right).contains(value@) {
                                lemma_str_lt_asym(value@, node.value@);
                            }
                        }
                        r
                    }
                    StrOrd::Greater => {
                        let r = node.right.contains(value);
                        proof {
                            if link_set(node.left).contains(value@) {
                                lemma_str_lt_asym(node.value@, value@);
                            }
                        }
                        r
                    }
                }
            }
        }
    }

    /// Detaches and returns the node holding the smallest value under the
    /// slot. An empty slot yields `None`; callers invoke this only on slots
    /// known to be occupied.
    fn delete_min(&mut self) -> (r: Option<Box<Node>>)
        requires
            link_wf(*old(self)),
        ensures
            link_wf(*final(self)),
            (r is Some) == !(*old(self) is Empty),
            *old(self) is Empty ==> *final(self) == *old(self),
            r matches Some(node) ==> {
                &&& link_set(*old(self)).contains(node.value@)
                &&& forall|x: Seq<char>|
                    #[trigger] link_set(*old(self)).contains(x) && x != node.value@ ==> str_lt(
                        node.value@,
                        x,
                    )
                &&& link_set(*final(self)) == link_set(*old(self)).remove(node.value@)
            },
        decreases *old(self),
    {
        let taken = self.take();
        match taken {
            Link::Empty => Option::None,
            Link::NonEmpty(mut boxed_node) => {
                if boxed_node.is_leaf() {
                    proof {
                        if link_set(boxed_node.left).contains(boxed_node.value@)
                            || link_set(boxed_node.right).contains(boxed_node.value@) {
                            lemma_str_lt_irrefl(boxed_node.value@);
                        }
                        assert(link_set(*self) =~= link_set(*old(self)).remove(boxed_node.value@));
                    }
                    Option::Some(boxed_node)
                } else if boxed_node.has_left_child() {
                    let ghost v0 = boxed_node.value@;
                    let ghost right0 = boxed_node.right;
                    let res = boxed_node.left.delete_min();
                    *self = Link::NonEmpty(boxed_node);
                    proof {
                        let m = res.unwrap().value@;
                        lemma_str_lt_irrefl(m);
                        lemma_str_lt_asym(m, v0);
                        assert(!link_set(right0).contains(m));
                        assert forall|x: Seq<char>|
                            #[trigger] link_set(*old(self)).contains(x) && x != m implies str_lt(
                            m,
                            x,
                        ) by {
                            if x == v0 {
                            } else if link_set(right0).contains(x) {
                                lemma_str_lt_trans(m, v0, x);
                            }
                        }
                        assert(link_set(*self) =~= link_set(*old(self)).remove(m));
                    }
                    res
                } else {
                    let ghost v0 = boxed_node.value@;
                    let ghost left0 = boxed_node.left;
                    let ghost right0 = boxed_node.right;
                    let right = boxed_node.right.take();
                    *self = right;
                    proof {
                        assert(left0 is Empty);
                        assert(link_set(*old(self)) == link_set(left0).union(
                            link_set(right0),
                        ).insert(v0));
                        assert(link_set(left0) == Set::<Seq<char>>::empty());
                        assert(*self == right0);
                        assert(forall|x: Seq<char>|
                            #[trigger] link_set(right0).contains(x) ==> str_lt(v0, x));
                        assert(link_set(*old(self)).contains(v0));
                        assert forall|x: Seq<char>|
                            link_set(*self).contains(x) == #[trigger] link_set(
                                *old(self),
                            ).remove(v0).contains(x) by {
                            if x == v0 && link_set(*self).contains(x) {
                                lemma_str_lt_irrefl(v0);
                            }
                        }
                        assert(link_set(*self) =~= link_set(*old(self)).remove(v0));
                    }
                    Option::Some(boxed_node)
                }
            }
        }
    }

    /// Removes the value equal to `value` and returns it; `None`, with the
    /// slot's contents unchanged, when no equal value is stored.
    fn delete(&mut self, value: &String) -> (r: Option<String>)
        requires
            link_wf(*old(self)),
        ensures
            link_wf(*final(self)),
            link_set(*final(self)) == link_set(*old(self)).remove(value@),
            !link_set(*old(self)).contains(value@) ==> *final(self) == *old(self),
            match r {
                Option::Some(s) => link_set(*old(self)).contains(value@) && s@ == value@,
                Option::None => !link_set(*old(self)).contains(value@),
            },
        decreases *old(self),
    {
        let taken = self.take();
        match taken {
            Link::Empty => {
                proof {
                    assert(link_set(*self) =~= link_set(*old(self)).remove(value@));
                }
                Option::None
            }
            Link::NonEmpty(mut boxed_node) => {
                match compare_strs(value.as_str(), boxed_node.value.as_str()) {
                    StrOrd::Equal => {
                        proof {
                            if link_set(boxed_node.left).contains(value@) || link_set(
                                boxed_node.right,
                            ).contains(value@) {
                                lemma_str_lt_irrefl(value@);
                            }
                        }
                        if boxed_node.is_leaf() {
                            proof {
                                assert(link_set(*self) =~= link_set(*old(self)).remove(value@));
                            }
                            let node = *boxed_node;
                            Option::Some(node.value)
                        } else if boxed_node.has_left_child() && !boxed_node.has_right_child() {
                            let mut node = *boxed_node;
                            let left = node.left.take();
                            *self = left;
                            proof {
                                assert(link_set(*self) =~= link_set(*old(self)).remove(value@));
                            }
                            Option::Some(node.value)
                        } else if !boxed_node.has_left_child() && boxed_node.has_right_child() {
                            let mut node = *boxed_node;
                            let right = node.right.take();
                            *self = right;
                            proof {
                                assert(link_set(*self) =~= link_set(*old(self)).remove(value@));
                            }
                            Option::Some(node.value)
                        } else {
                            let ghost left0 = boxed_node.left;
                            let ghost right0 = boxed_node.right;
                            let min = boxed_node.right.delete_min();
                            let mut min_node = min.unwrap();
                            core::mem::swap(&mut boxed_node.value, &mut min_node.value);
                            *self = Link::NonEmpty(boxed_node);
                            let min_owned = *min_node;
                            proof {
                                let m = min_owned.value@;
                                let nv = link_root_value(*self);
                                lemma_str_lt_irrefl(nv);
                                assert(link_set(right0).contains(nv));
                                assert forall|x: Seq<char>|
                                    #[trigger] link_set(left0).contains(x) implies str_lt(
                                    x,
                                    nv,
                                ) by {
                                    lemma_str_lt_trans(x, value@, nv);
                                }
                                if link_set(left0).contains(nv) {
                                    lemma_str_lt_asym(nv, value@);
                                }
                                assert(link_set(*self) =~= link_set(*old(self)).remove(value@));
                            }
                            Option::Some(min_owned.value)
                        }
                    }
                    StrOrd::Less => {
                        let ghost v0 = boxed_node.value@;
                        let ghost right0 = boxed_node.right;
                        let r = boxed_node.left.delete(value);
                        *self = Link::NonEmpty(boxed_node);
                        proof {
                            if v0 == value@ {
                                lemma_str_lt_irrefl(value@);
                            }
                            if link_set(right0).contains(value@) {
                                lemma_str_lt_asym(value@, v0);
                            }
                            assert(link_set(*self) =~= link_set(*old(self)).remove(value@));
                        }
                        r
                    }
                    StrOrd::Greater => {
                        let ghost v0 = boxed_node.value@;
                        let ghost left0 = boxed_node.left;
                        let r = boxed_node.right.delete(value);
                        *self = Link::NonEmpty(boxed_node);
                        proof {
                            if v0 == value@ {
                                lemma_str_lt_irrefl(value@);
                            }
                            if link_set(left0).contains(value@) {
                                lemma_str_lt_asym(v0, value@);
                            }
                            assert(link_set(*self) =~= link_set(*old(self)).remove(value@));
                        }
                        r
                    }
                }
            }
        }
    }

    /// Inserts `value` under the slot; a duplicate is silently discarded.
    fn insert(&mut self, value: String)
        requires
            link_wf(*old(self)),
        ensures
            link_wf(*final(self)),
            link_set(*final(self)) == link_set(*old(self)).insert(value@),
            link_count(*final(self)) <= link_count(*old(self)) + 1,
        decreases *old(self),
    {
        let taken = self.take();
        match taken {
            Link::Empty => {
                *self = Link::NonEmpty(
                    Box::new(Node { value, left: Link::Empty, right: Link::Empty }),
                );
                proof {
                    assert(link_set(*self) =~= link_set(*old(self)).insert(value@));
                }
            }
            Link::NonEmpty(mut boxed_node) => {
                match compare_strs(value.as_str(), boxed_node.value.as_str()) {
                    StrOrd::Equal => {
                        *self = Link::NonEmpty(boxed_node);
                        proof {
                            assert(link_set(*self) =~= link_set(*old(self)).insert(value@));
                        }
                    }
                    StrOrd::Less => {
                        boxed_node.left.insert(value);
                        *self = Link::NonEmpty(boxed_node);
                        proof {
                            assert(link_set(*self) =~= link_set(*old(self)).insert(value@));
                        }
                    }
                    StrOrd::Greater => {
                        boxed_node.right.insert(value);
                        *self = Link::NonEmpty(boxed_node);
                        proof {
                            assert(link_set(*self) =~= link_set(*old(self)).insert(value@));
                        }
                    }
                }
            }
        }
    }
}

impl Tree {
    /// Well-formed: the ordering invariant holds and the node count fits in
    /// a machine word.
    pub closed spec fn wf(self) -> bool {
        link_wf(self.root) && link_count(self.root) <= usize::MAX
    }

    /// The stored values as a set.
    pub closed spec fn as_set(self) -> Set<Seq<char>> {
        link_set(self.root)
    }

    /// The stored values in ascending order.
    pub closed spec fn inorder(self) -> Seq<Seq<char>> {
        link_inorder(self.root)
    }

    /// An empty tree.
    pub fn new() -> (t: Tree)
        ensures
            t.wf(),
            t@ == Set::<Seq<char>>::empty(),
            t.inorder() == Seq::<Seq<char>>::empty(),
    {
        Tree { root: Link::Empty }
    }

    /// Inserts `value`; if an equal value is already present, nothing
    /// changes.
    pub fn insert(&mut self, value: String)
        requires
            old(self).wf(),
            old(self)@.len() < usize::MAX,
        ensures
            final(self).wf(),
            final(self)@ == old(self)@.insert(value@),
    {
        proof {
            lemma_wf_props(self.root);
        }
        self.root.insert(value);
        proof {
            lemma_wf_props(self.root);
        }
    }

    /// Removes the value equal to `value` and returns it. When no equal
    /// value is present — in particular on an empty tree — returns `None`
    /// and leaves the tree unchanged.
    pub fn delete(&mut self, value: &String) -> (r: Option<String>)
        requires
            old(self).wf(),
        ensures
            final(self).wf(),
            final(self)@ == old(self)@.remove(value@),
            !old(self)@.contains(value@) ==> *final(self) == *old(self),
            match r {
                Option::Some(s) => old(self)@.contains(value@) && s@ == value@,
                Option::None => !old(self)@.contains(value@),
            },
    {
        proof {
            lemma_wf_props(self.root);
        }
        let r = self.root.delete(value);
        proof {
            broadcast use vstd::set::group_set_axioms;

            lemma_wf_props(self.root);
            if !link_set(old(self).root).contains(value@) {
                assert(link_set(old(self).root).remove(value@) =~= link_set(old(self).root));
            }
        }
        r
    }

    /// The number of stored values, counted by full traversal.
    pub fn size(&self) -> (n: usize)
        requires
            self.wf(),
        ensures
            n as nat == self@.len(),
    {
        proof {
            lemma_wf_props(self.root);
        }
        self.root.size()
    }

    /// An in-order iterator over the stored values, ascending under the
    /// lexicographic order.
    pub fn iter(&self) -> (it: TreeIterator)
        ensures
            it.remaining() == self.inorder(),
    {
        let mut it = TreeIterator { unvisited: Vec::new() };
        it.push_left_nodes(&self.root);
        proof {
            assert(link_inorder(self.root) + stack_pending(Seq::<&Node>::empty())
                =~= link_inorder(self.root));
        }
        it
    }

    /// Whether a value equal to `value` is present.
    pub fn contains(&self, value: &String) -> (r: bool)
        requires
            self.wf(),
        ensures
            r == self@.contains(value@),
    {
        self.root.contains(value)
    }

    /// Ordering law: on any well-formed tree — and every operation keeps
    /// the tree well-formed — the in-order traversal is strictly ascending
    /// under the lexicographic order, and it enumerates exactly the stored
    /// set, one entry per value.
    pub proof fn lemma_inorder_sorted(self)
        requires
            self.wf(),
        ensures
            strictly_ascending(self.inorder()),
            self.inorder().to_set() == self@,
            self.inorder().len() == self@.len(),
    {
        broadcast use vstd::set::group_set_axioms;

        lemma_link_inorder_props(self.root);
        lemma_wf_props(self.root);
        assert(self.inorder().to_set() =~= link_set(self.root));
    }
}

/// Canonical traversal law: two well-formed trees holding the same set of
/// values have the same in-order traversal, whatever their shapes.
pub proof fn lemma_inorder_canonical(t1: Tree, t2: Tree)
    requires
        t1.wf(),
        t2.wf(),
        t1@ == t2@,
    ensures
        t1.inorder() == t2.inorder(),
{
    t1.lemma_inorder_sorted();
    t2.lemma_inorder_sorted();
    crate::order::lemma_sorted_unique(t1.inorder(), t2.inorder());
}

/// Membership law: inserting a value makes it present and deleting it makes
/// it absent, while an operation on one value never changes whether a
/// different value is present. Stated over the set view that `insert`,
/// `delete` and `contains` promise.
pub proof fn lemma_membership(s: Set<Seq<char>>, v: Seq<char>, w: Seq<char>)
    ensures
        s.insert(v).contains(v),
        !s.remove(v).contains(v),
        v != w ==> s.insert(w).contains(v) == s.contains(v),
        v != w ==> s.remove(w).contains(v) == s.contains(v),
{
}

/// Size law: inserting a fresh value grows the set by one and a duplicate
/// leaves it unchanged; deleting a present value shrinks it by one and an
/// absent one leaves it unchanged. With `size` returning the set's length,
/// this pins how every operation moves the reported size.
pub proof fn lemma_size_accounting(s: Set<Seq<char>>, v: Seq<char>)
    requires
        s.finite(),
    ensures
        !s.contains(v) ==> s.insert(v).len() == s.len() + 1,
        s.contains(v) ==> s.insert(v) == s,
        s.contains(v) ==> s.remove(v).len() + 1 == s.len(),
        !s.contains(v) ==> s.remove(v) == s,
{
    broadcast use vstd::set::group_set_axioms;

    if s.contains(v) {
        assert(s.insert(v) =~= s);
    } else {
        assert(s.remove(v) =~= s);
    }
}

/// Re-delete law: once a value has been deleted it is no longer present,
/// so deleting it again changes nothing and reports the value as absent.
pub proof fn lemma_redelete(s: Set<Seq<char>>, v: Seq<char>)
    ensures
        !s.remove(v).contains(v),
        s.remove(v).remove(v) == s.remove(v),
{
    assert(s.remove(v).remove(v) =~= s.remove(v));
}

/// The values a traversal stack still has to yield: for each stack entry,
/// from the top down, the entry's value and then its right subtree.
spec fn stack_pending(stack: Seq<&Node>) -> Seq<Seq<char>>
    decreases stack.len(),
{
    if stack.len() == 0 {
        Seq::empty()
    } else {
        seq![stack.last().value@] + link_inorder(stack.last().right) + stack_pending(
            stack.drop_last(),
        )
    }
}

/// A lazy in-order iterator over a tree's values. It keeps an explicit
/// stack of nodes that have been visited but not yet yielded; the tree
/// cannot be mutated while the iterator is alive.
pub struct TreeIterator<'a> {
    unvisited: Vec<&'a Node>,
}

impl<'a> TreeIterator<'a> {
    /// The values not yet yielded, in the order they will come out.
    pub closed spec fn remaining(self) -> Seq<Seq<char>> {
        stack_pending(self.unvisited@)
    }

    /// Pushes the leftmost spine of the subtree under `l` onto the stack.
    fn push_left_nodes(&mut self, l: &'a Link)
        ensures
            final(self).remaining() == link_inorder(*l) + old(self).remaining(),
    {
        let mut cur: &'a Link = l;
        loop
            invariant
                link_inorder(*cur) + stack_pending(self.unvisited@) =~= link_inorder(*l)
                    + stack_pending(old(self).unvisited@),
            ensures
                stack_pending(self.unvisited@) =~= link_inorder(*l) + stack_pending(
                    old(self).unvisited@,
                ),
            decreases *cur,
        {
            match cur {
                Link::Empty => {
                    proof {
                        assert(link_inorder(*cur) + stack_pending(self.unvisited@)
                            =~= stack_pending(self.unvisited@));
                    }
                    break ;
                }
                Link::NonEmpty(node) => {
                    let ghost prev = self.unvisited@;
                    self.unvisited.push(&**node);
                    cur = &node.left;
                    proof {
                        assert(self.unvisited@.drop_last() =~= prev);
                        assert(link_inorder(*cur) + stack_pending(self.unvisited@)
                            =~= link_inorder(node.left) + (seq![node.value@] + link_inorder(
                            node.right,
                        ) + stack_pending(prev)));
                    }
                }
            }
        }
    }

    /// Yields the next value in ascending order, or `None` when the
    /// traversal is finished.
    pub fn next(&mut self) -> (r: Option<&'a String>)
        ensures
            match r {
                Option::Some(v) => {
                    &&& old(self).remaining().len() > 0
                    &&& v@ == old(self).remaining()[0]
                    &&& final(self).remaining() == old(self).remaining().skip(1)
                },
                Option::None => {
                    &&& old(self).remaining().len() == 0
                    &&& final(self).remaining().len() == 0
                },
            },
    {
        let popped = self.unvisited.pop();
        match popped {
            Option::None => Option::None,
            Option::Some(node) => {
                let ghost rest = self.unvisited@;
                self.push_left_nodes(&node.right);
                proof {
                    assert(rest =~= old(self).unvisited@.drop_last());
                    assert(old(self).remaining() == seq![node.value@] + link_inorder(node.right)
                        + stack_pending(rest));
                    assert(self.remaining() == link_inorder(node.right) + stack_pending(rest));
                    assert(self.remaining() =~= old(self).remaining().skip(1));
                    assert(old(self).remaining()[0] == node.value@);
                }
                Option::Some(&node.value)
            }
        }
    }
}

impl View for Tree {
    type V = Set<Seq<char>>;

    open spec fn view(&self) -> Set<Seq<char>> {
        self.as_set()
    }
}

} // verus!
